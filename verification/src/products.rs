//! Palindromic products of factor pairs drawn from an inclusive range.
//!
//! `Palindrome` groups every factor pair that yields one palindromic product
//! value; `palindrome_products` returns the groups for the smallest and the
//! largest such value in the range, or `None` when the range yields no
//! palindromic product at all.

use vstd::assert_sets_equal;
use vstd::prelude::*;

use crate::digits::is_decimal_palindrome;
use crate::digits::lemma_pow10_19;
use crate::digits::lemma_rev_digits_bound;
use crate::digits::lemma_rev_digits_iff_palindrome;
use crate::digits::lemma_rev_digits_lower;
use crate::digits::pow10;
use crate::digits::rev_digits;

verus! {

/// One palindromic product value together with every factor pair that
/// produces it.
#[derive(Debug, PartialEq, Eq)]
pub struct Palindrome {
    factors: Vec<(u64, u64)>,
    value: u64,
}

impl Palindrome {
    /// The product value this group stands for.
    pub closed spec fn spec_value(&self) -> u64 {
        self.value
    }

    /// The factor pairs of the group, in insertion order.
    pub closed spec fn factor_seq(&self) -> Seq<(u64, u64)> {
        self.factors@
    }

    /// The factor pairs of the group, as the set they represent.
    pub closed spec fn factor_set(&self) -> Set<(u64, u64)> {
        self.factors@.to_set()
    }

    /// Each stored pair is ordered, multiplies to the group's value, and
    /// appears only once.
    pub closed spec fn wf(&self) -> bool {
        &&& self.factors@.no_duplicates()
        &&& forall|i: int|
            0 <= i < self.factors@.len() ==> (#[trigger] self.factors@[i]).0
                <= self.factors@[i].1 && (self.factors@[i].0 as nat) * (
            self.factors@[i].1 as nat) == self.value
    }

    /// A group holding the single pair `(a, b)` with value `a * b`.
    pub fn new(a: u64, b: u64) -> (p: Palindrome)
        requires
            a <= b,
            (a as nat) * (b as nat) <= u64::MAX,
        ensures
            p.wf(),
            p.spec_value() == (a as nat) * (b as nat),
            p.factor_set() == set![(a, b)],
    {
        let mut factors: Vec<(u64, u64)> = Vec::new();
        factors.push((a, b));
        let p = Palindrome { factors, value: a * b };
        proof {
            assert(p.factors@ =~= seq![(a, b)]);
            assert(p.factors@.to_set() =~= set![(a, b)]) by {
                assert(p.factors@[0] == (a, b));
                assert(p.factors@.contains((a, b)));
            }
        }
        p
    }

    /// The product value of the group.
    pub fn value(&self) -> (v: u64)
        ensures
            v == self.spec_value(),
    {
        self.value
    }

    /// Adds the pair `(a, b)` to the group; adding a pair already present
    /// leaves the group unchanged.
    pub fn insert(&mut self, a: u64, b: u64)
        requires
            old(self).wf(),
            a <= b,
            (a as nat) * (b as nat) == old(self).spec_value(),
        ensures
            final(self).wf(),
            final(self).spec_value() == old(self).spec_value(),
            final(self).factor_set() == old(self).factor_set().insert((a, b)),
    {
        let mut i: usize = 0;
        let n = self.factors.len();
        while i < n
            invariant
                self.factors@ == old(self).factors@,
                self.value == old(self).value,
                self.wf(),
                n == self.factors.len(),
                i <= n,
                forall|j: int| 0 <= j < i ==> #[trigger] self.factors@[j] != (a, b),
            decreases n - i,
        {
            let (x, y) = self.factors[i];
            if x == a && y == b {
                proof {
                    assert(self.factors@[i as int] == (a, b));
                    assert(self.factors@.to_set().contains((a, b))) by {
                        assert(self.factors@.contains((a, b)));
                    }
                    assert(self.factor_set() =~= self.factor_set().insert((a, b)));
                }
                return ;
            }
            i = i + 1;
        }
        proof {
            assert(!self.factors@.contains((a, b)));
        }
        let ghost pre = self.factors@;
        self.factors.push((a, b));
        proof {
            assert(self.factors@ == pre.push((a, b)));
            assert(self.factors@.no_duplicates()) by {
                assert forall|p: int, q: int|
                    0 <= p < q < self.factors@.len() implies self.factors@[p] != self.factors@[q] by {
                    if q == pre.len() as int {
                        assert(pre.contains(pre[p])) by {
                            assert(pre[p] == self.factors@[p]);
                        }
                    }
                }
            }
            let post = self.factors@;
            assert_sets_equal!(self.factor_set() == old(self).factor_set().insert((a, b)), p => {
                if post.to_set().contains(p) {
                    assert(post.contains(p));
                    let k = choose|k: int| 0 <= k < post.len() && post[k] == p;
                    if k < pre.len() {
                        assert(pre[k] == p);
                        assert(pre.contains(p));
                        assert(pre.to_set().contains(p));
                    } else {
                        assert(p == (a, b));
                    }
                }
                if pre.to_set().contains(p) {
                    assert(pre.contains(p));
                    let k = choose|k: int| 0 <= k < pre.len() && pre[k] == p;
                    assert(post[k] == p);
                    assert(post.contains(p));
                    assert(post.to_set().contains(p));
                }
                if p == (a, b) {
                    assert(post[pre.len() as int] == p);
                    assert(post.contains(p));
                    assert(post.to_set().contains(p));
                }
            });
        }
    }

    /// The factor pairs of the group, in insertion order.
    pub fn factors(&self) -> (r: &Vec<(u64, u64)>)
        ensures
            r@ == self.factor_seq(),
            r@.to_set() == self.factor_set(),
    {
        &self.factors
    }
}

/// Reverses the base-10 digits of `n` (for example 123 becomes 321).
pub fn reverse(n: u64) -> (r: u64)
    requires
        (n as nat) < 10000000000000000000,
    ensures
        r == rev_digits(n as nat, 0),
{
    proof {
        lemma_pow10_19();
        lemma_rev_digits_bound(n as nat, 19);
    }
    let mut m = n;
    let mut reversed: u64 = 0;
    while m != 0
        invariant
            rev_digits(n as nat, 0) == rev_digits(m as nat, reversed as nat),
            rev_digits(n as nat, 0) < pow10(19),
            pow10(19) == 10000000000000000000,
        decreases m,
    {
        proof {
            lemma_rev_digits_lower(m as nat, reversed as nat);
        }
        reversed = reversed * 10 + m % 10;
        m = m / 10;
    }
    reversed
}

/// Whether the product `a * b` reads the same forwards and backwards in
/// base 10.
pub fn is_palindrome(a: u64, b: u64) -> (r: bool)
    requires
        (a as nat) * (b as nat) < 10000000000000000000,
    ensures
        r == is_decimal_palindrome((a as nat) * (b as nat)),
{
    proof {
        lemma_pow10_19();
    }
    let prod = a * b;
    let rev = reverse(prod);
    proof {
        lemma_rev_digits_iff_palindrome(prod as nat);
    }
    prod == rev
}

/// The pair `p` is an ordered factor pair drawn from `[min, max]`.
pub open spec fn in_range(min: u64, max: u64, p: (u64, u64)) -> bool {
    min <= p.0 && p.0 <= p.1 && p.1 <= max
}

/// The product of the pair `p`.
pub open spec fn pair_product(p: (u64, u64)) -> nat {
    (p.0 as nat) * (p.1 as nat)
}

/// The product of the pair `p` is a decimal palindrome.
pub open spec fn pal_pair(p: (u64, u64)) -> bool {
    is_decimal_palindrome(pair_product(p))
}

/// How one fold step changes the pair of extremal groups: a pair with a
/// palindromic product starts, extends or replaces a group on each side;
/// any other pair changes nothing.
pub open spec fn check_post(
    pre: Option<(Palindrome, Palindrome)>,
    a: u64,
    b: u64,
    post: Option<(Palindrome, Palindrome)>,
) -> bool {
    let prod = (a as nat) * (b as nat);
    if is_decimal_palindrome(prod) {
        match (pre, post) {
            (None, Some((lo2, hi2))) => {
                &&& lo2.wf() && hi2.wf()
                &&& lo2.spec_value() == prod && hi2.spec_value() == prod
                &&& lo2.factor_set() == set![(a, b)]
                &&& hi2.factor_set() == set![(a, b)]
            },
            (Some((lo, hi)), Some((lo2, hi2))) => {
                &&& (if prod < lo.spec_value() {
                    lo2.wf() && lo2.spec_value() == prod && lo2.factor_set() == set![(a, b)]
                } else if prod == lo.spec_value() {
                    lo2.wf() && lo2.spec_value() == lo.spec_value() && lo2.factor_set()
                        == lo.factor_set().insert((a, b))
                } else {
                    lo2 == lo
                })
                &&& (if prod > hi.spec_value() {
                    hi2.wf() && hi2.spec_value() == prod && hi2.factor_set() == set![(a, b)]
                } else if prod == hi.spec_value() {
                    hi2.wf() && hi2.spec_value() == hi.spec_value() && hi2.factor_set()
                        == hi.factor_set().insert((a, b))
                } else {
                    hi2 == hi
                })
            },
            _ => false,
        }
    } else {
        post == pre
    }
}

/// The pair `p` lies before position `(a, b)` in the enumeration order of
/// the pairs of the range: the first component runs outermost.
spec fn before(a: int, b: int, p: (u64, u64)) -> bool {
    p.0 < a || (p.0 == a && p.1 < b)
}

/// The invariant of the fold, restricted to the pairs of `[min, max]` that
/// lie before position `(a, b)`: the state is `None` exactly when no such
/// pair has a palindromic product, and otherwise holds the group of every
/// such pair achieving the smallest palindromic product seen, and likewise
/// the group of the largest.
spec fn acc_ok(
    min: u64,
    max: u64,
    a: int,
    b: int,
    st: Option<(Palindrome, Palindrome)>,
) -> bool {
    match st {
        None => forall|p: (u64, u64)|
            in_range(min, max, p) && #[trigger] before(a, b, p) ==> !pal_pair(p),
        Some((lo, hi)) => {
            &&& lo.wf() && hi.wf()
            &&& is_decimal_palindrome(lo.spec_value() as nat)
            &&& is_decimal_palindrome(hi.spec_value() as nat)
            &&& forall|p: (u64, u64)|
                #![trigger lo.factor_set().contains(p)]
                #![trigger in_range(min, max, p)]
                lo.factor_set().contains(p) <==> (in_range(min, max, p) && before(a, b, p)
                    && pair_product(p) == lo.spec_value())
            &&& forall|p: (u64, u64)|
                #![trigger hi.factor_set().contains(p)]
                #![trigger in_range(min, max, p)]
                hi.factor_set().contains(p) <==> (in_range(min, max, p) && before(a, b, p)
                    && pair_product(p) == hi.spec_value())
            &&& exists|p: (u64, u64)| #[trigger] lo.factor_set().contains(p)
            &&& exists|p: (u64, u64)| #[trigger] hi.factor_set().contains(p)
            &&& forall|p: (u64, u64)|
                #![trigger in_range(min, max, p)]
                in_range(min, max, p) && before(a, b, p) && pal_pair(p) ==> lo.spec_value()
                    <= pair_product(p) && pair_product(p) <= hi.spec_value()
        },
    }
}

/// One fold step moves the invariant from position `(a, b)` to `(a, b + 1)`.
proof fn lemma_acc_step(
    min: u64,
    max: u64,
    a: u64,
    b: u64,
    pre: Option<(Palindrome, Palindrome)>,
    post: Option<(Palindrome, Palindrome)>,
)
    requires
        min <= a,
        a <= b,
        b <= max,
        acc_ok(min, max, a as int, b as int, pre),
        check_post(pre, a, b, post),
    ensures
        acc_ok(min, max, a as int, b as int + 1, post),
{
    let q = (a, b);
    assert(in_range(min, max, q));
    assert(pair_product(q) == (a as nat) * (b as nat));
    assert forall|p: (u64, u64)| #[trigger]
        before(a as int, b as int + 1, p) implies (before(a as int, b as int, p) || p == q) by {}
    if !pal_pair(q) {
        match post {
            None => {
                assert forall|p: (u64, u64)|
                    in_range(min, max, p) && #[trigger] before(
                    a as int,
                    b as int + 1,
                    p,
                ) implies !pal_pair(p) by {
                    if p != q {
                        assert(before(a as int, b as int, p));
                    }
                }
            },
            Some((lo2, hi2)) => {
                assert forall|p: (u64, u64)|
                    #![trigger lo2.factor_set().contains(p)]
                    #![trigger in_range(min, max, p)]
                    lo2.factor_set().contains(p) <==> (in_range(min, max, p) && before(
                    a as int,
                    b as int + 1,
                    p,
                ) && pair_product(p) == lo2.spec_value()) by {
                    if p == q && in_range(min, max, p) && pair_product(p) == lo2.spec_value() {
                        assert(pal_pair(q));
                    }
                }
                assert forall|p: (u64, u64)|
                    #![trigger hi2.factor_set().contains(p)]
                    #![trigger in_range(min, max, p)]
                    hi2.factor_set().contains(p) <==> (in_range(min, max, p) && before(
                    a as int,
                    b as int + 1,
                    p,
                ) && pair_product(p) == hi2.spec_value()) by {
                    if p == q && in_range(min, max, p) && pair_product(p) == hi2.spec_value() {
                        assert(pal_pair(q));
                    }
                }
                assert forall|p: (u64, u64)|
                    #![trigger in_range(min, max, p)]
                    in_range(min, max, p) && before(a as int, b as int + 1, p) && pal_pair(
                    p,
                ) implies lo2.spec_value() <= pair_product(p) && pair_product(p)
                    <= hi2.spec_value() by {
                    assert(p != q);
                    assert(before(a as int, b as int, p));
                }
            },
        }
    } else {
        let prod = pair_product(q);
        match (pre, post) {
            (_, None) => {
                assert(false);
            },
            (None, Some((lo2, hi2))) => {
                assert forall|p: (u64, u64)|
                    #![trigger lo2.factor_set().contains(p)]
                    #![trigger in_range(min, max, p)]
                    lo2.factor_set().contains(p) <==> (in_range(min, max, p) && before(
                    a as int,
                    b as int + 1,
                    p,
                ) && pair_product(p) == lo2.spec_value()) by {
                    if p != q && in_range(min, max, p) && before(a as int, b as int, p)
                        && pair_product(p) == lo2.spec_value() {
                        assert(pal_pair(p));
                    }
                }
                assert forall|p: (u64, u64)|
                    #![trigger hi2.factor_set().contains(p)]
                    #![trigger in_range(min, max, p)]
                    hi2.factor_set().contains(p) <==> (in_range(min, max, p) && before(
                    a as int,
                    b as int + 1,
                    p,
                ) && pair_product(p) == hi2.spec_value()) by {
                    if p != q && in_range(min, max, p) && before(a as int, b as int, p)
                        && pair_product(p) == hi2.spec_value() {
                        assert(pal_pair(p));
                    }
                }
                assert(lo2.factor_set().contains(q));
                assert(hi2.factor_set().contains(q));
                assert forall|p: (u64, u64)|
                    #![trigger in_range(min, max, p)]
                    in_range(min, max, p) && before(a as int, b as int + 1, p) && pal_pair(
                    p,
                ) implies lo2.spec_value() <= pair_product(p) && pair_product(p)
                    <= hi2.spec_value() by {
                    if p != q {
                        assert(before(a as int, b as int, p));
                    }
                }
            },
            (Some((lo, hi)), Some((lo2, hi2))) => {
                assert forall|p: (u64, u64)|
                    #![trigger lo2.factor_set().contains(p)]
                    #![trigger in_range(min, max, p)]
                    lo2.factor_set().contains(p) <==> (in_range(min, max, p) && before(
                    a as int,
                    b as int + 1,
                    p,
                ) && pair_product(p) == lo2.spec_value()) by {
                    if prod < lo.spec_value() {
                        if p != q && in_range(min, max, p) && before(a as int, b as int, p)
                            && pair_product(p) == lo2.spec_value() {
                            assert(pal_pair(p));
                            assert(lo.spec_value() <= pair_product(p));
                        }
                    } else if prod == lo.spec_value() {
                        if lo.factor_set().contains(p) {
                            assert(in_range(min, max, p) && before(a as int, b as int, p));
                        }
                    } else {
                        if p == q && pair_product(p) == lo2.spec_value() {
                            assert(false);
                        }
                        if lo2.factor_set().contains(p) {
                            assert(in_range(min, max, p) && before(a as int, b as int, p));
                        }
                    }
                }
                assert forall|p: (u64, u64)|
                    #![trigger hi2.factor_set().contains(p)]
                    #![trigger in_range(min, max, p)]
                    hi2.factor_set().contains(p) <==> (in_range(min, max, p) && before(
                    a as int,
                    b as int + 1,
                    p,
                ) && pair_product(p) == hi2.spec_value()) by {
                    if prod > hi.spec_value() {
                        if p != q && in_range(min, max, p) && before(a as int, b as int, p)
                            && pair_product(p) == hi2.spec_value() {
                            assert(pal_pair(p));
                            assert(pair_product(p) <= hi.spec_value());
                        }
                    } else if prod == hi.spec_value() {
                        if hi.factor_set().contains(p) {
                            assert(in_range(min, max, p) && before(a as int, b as int, p));
                        }
                    } else {
                        if p == q && pair_product(p) == hi2.spec_value() {
                            assert(false);
                        }
                        if hi2.factor_set().contains(p) {
                            assert(in_range(min, max, p) && before(a as int, b as int, p));
                        }
                    }
                }
                assert(exists|p: (u64, u64)| #[trigger] lo2.factor_set().contains(p)) by {
                    if prod <= lo.spec_value() {
                        assert(lo2.factor_set().contains(q));
                    } else {
                        let w = choose|p: (u64, u64)| #[trigger] lo.factor_set().contains(p);
                        assert(lo2.factor_set().contains(w));
                    }
                }
                assert(exists|p: (u64, u64)| #[trigger] hi2.factor_set().contains(p)) by {
                    if prod >= hi.spec_value() {
                        assert(hi2.factor_set().contains(q));
                    } else {
                        let w = choose|p: (u64, u64)| #[trigger] hi.factor_set().contains(p);
                        assert(hi2.factor_set().contains(w));
                    }
                }
                assert forall|p: (u64, u64)|
                    #![trigger in_range(min, max, p)]
                    in_range(min, max, p) && before(a as int, b as int + 1, p) && pal_pair(
                    p,
                ) implies lo2.spec_value() <= pair_product(p) && pair_product(p)
                    <= hi2.spec_value() by {
                    if p != q {
                        assert(before(a as int, b as int, p));
                        assert(lo.spec_value() <= pair_product(p));
                        assert(pair_product(p) <= hi.spec_value());
                    }
                }
            },
        }
    }
}

/// When every pair of the current row has been folded, the invariant at the
/// row's end is the invariant at the start of the next row.
proof fn lemma_acc_advance(min: u64, max: u64, a: u64, st: Option<(Palindrome, Palindrome)>)
    requires
        acc_ok(min, max, a as int, max as int + 1, st),
    ensures
        acc_ok(min, max, a as int + 1, a as int + 1, st),
{
    assert forall|p: (u64, u64)| #[trigger]
        in_range(min, max, p) implies (before(a as int, max as int + 1, p) <==> before(
        a as int + 1,
        a as int + 1,
        p,
    )) by {}
    match st {
        None => {
            assert forall|p: (u64, u64)|
                in_range(min, max, p) && #[trigger] before(
                a as int + 1,
                a as int + 1,
                p,
            ) implies !pal_pair(p) by {
                assert(before(a as int, max as int + 1, p));
            }
        },
        Some((lo, hi)) => {
            assert forall|p: (u64, u64)|
                #![trigger lo.factor_set().contains(p)]
                #![trigger in_range(min, max, p)]
                lo.factor_set().contains(p) <==> (in_range(min, max, p) && before(
                a as int + 1,
                a as int + 1,
                p,
            ) && pair_product(p) == lo.spec_value()) by {}
            assert forall|p: (u64, u64)|
                #![trigger hi.factor_set().contains(p)]
                #![trigger in_range(min, max, p)]
                hi.factor_set().contains(p) <==> (in_range(min, max, p) && before(
                a as int + 1,
                a as int + 1,
                p,
            ) && pair_product(p) == hi.spec_value()) by {}
            assert forall|p: (u64, u64)|
                #![trigger in_range(min, max, p)]
                in_range(min, max, p) && before(a as int + 1, a as int + 1, p) && pal_pair(
                p,
            ) implies lo.spec_value() <= pair_product(p) && pair_product(p)
                <= hi.spec_value() by {
                assert(before(a as int, max as int + 1, p));
            }
        },
    }
}

/// The full contract of `palindrome_products`: `None` exactly when no
/// ordered factor pair drawn from `[min, max]` has a palindromic product;
/// otherwise the two groups hold the smallest and the largest palindromic
/// product value, each together with every factor pair of the range that
/// achieves it.
pub open spec fn result_spec(min: u64, max: u64, r: Option<(Palindrome, Palindrome)>) -> bool {
    match r {
        None => forall|p: (u64, u64)| #[trigger] in_range(min, max, p) ==> !pal_pair(p),
        Some((lo, hi)) => {
            &&& lo.wf() && hi.wf()
            &&& is_decimal_palindrome(lo.spec_value() as nat)
            &&& is_decimal_palindrome(hi.spec_value() as nat)
            &&& forall|p: (u64, u64)|
                #![trigger lo.factor_set().contains(p)]
                #![trigger in_range(min, max, p)]
                lo.factor_set().contains(p) <==> (in_range(min, max, p) && pair_product(p)
                    == lo.spec_value())
            &&& forall|p: (u64, u64)|
                #![trigger hi.factor_set().contains(p)]
                #![trigger in_range(min, max, p)]
                hi.factor_set().contains(p) <==> (in_range(min, max, p) && pair_product(p)
                    == hi.spec_value())
            &&& exists|p: (u64, u64)| #[trigger] lo.factor_set().contains(p)
            &&& exists|p: (u64, u64)| #[trigger] hi.factor_set().contains(p)
            &&& forall|p: (u64, u64)|
                #![trigger in_range(min, max, p)]
                in_range(min, max, p) && pal_pair(p) ==> lo.spec_value() <= pair_product(p)
                    && pair_product(p) <= hi.spec_value()
        },
    }
}

/// When the fold has covered every pair of the range, its invariant is the
/// full contract.
proof fn lemma_acc_complete(
    min: u64,
    max: u64,
    a: int,
    b: int,
    st: Option<(Palindrome, Palindrome)>,
)
    requires
        forall|p: (u64, u64)| #[trigger] in_range(min, max, p) ==> before(a, b, p),
        acc_ok(min, max, a, b, st),
    ensures
        result_spec(min, max, st),
{
    match st {
        None => {
            assert forall|p: (u64, u64)| #[trigger] in_range(min, max, p) implies !pal_pair(p) by {
                assert(before(a, b, p));
            }
        },
        Some((lo, hi)) => {
            assert forall|p: (u64, u64)|
                #![trigger lo.factor_set().contains(p)]
                #![trigger in_range(min, max, p)]
                lo.factor_set().contains(p) <==> (in_range(min, max, p) && pair_product(p)
                    == lo.spec_value()) by {}
            assert forall|p: (u64, u64)|
                #![trigger hi.factor_set().contains(p)]
                #![trigger in_range(min, max, p)]
                hi.factor_set().contains(p) <==> (in_range(min, max, p) && pair_product(p)
                    == hi.spec_value()) by {}
            assert forall|p: (u64, u64)|
                #![trigger in_range(min, max, p)]
                in_range(min, max, p) && pal_pair(p) implies lo.spec_value() <= pair_product(p)
                    && pair_product(p) <= hi.spec_value() by {
                assert(before(a, b, p));
            }
        },
    }
}

/// Computes the group of the smallest and the group of the largest
/// palindromic product of two factors drawn from `[min, max]`, or `None`
/// when the range yields no palindromic product.
pub fn palindrome_products(min: u64, max: u64) -> (r: Option<(Palindrome, Palindrome)>)
    requires
        min <= max ==> (max as nat) * (max as nat) < 10000000000000000000,
    ensures
        result_spec(min, max, r),
{
    proof {
        lemma_pow10_19();
        if min <= max {
            assert(max as nat <= 4000000000) by (nonlinear_arith)
                requires
                    (max as nat) * (max as nat) < 10000000000000000000,
            ;
        }
    }
    let mut state: Option<(Palindrome, Palindrome)> = None;
    let mut a: u64 = min;
    while a <= max
        invariant
            min <= a,
            min <= max ==> a <= max as int + 1,
            min <= max ==> (max as nat) * (max as nat) < 10000000000000000000,
            min <= max ==> max as nat <= 4000000000,
            acc_ok(min, max, a as int, a as int, state),
        decreases max as int + 1 - a as int,
    {
        let mut b: u64 = a;
        while b <= max
            invariant
                min <= a,
                a <= max,
                a <= b,
                b <= max as int + 1,
                (max as nat) * (max as nat) < 10000000000000000000,
                max as nat <= 4000000000,
                acc_ok(min, max, a as int, b as int, state),
            decreases max as int + 1 - b as int,
        {
            proof {
                assert((a as nat) * (b as nat) <= (max as nat) * (max as nat))
                    by (nonlinear_arith)
                    requires
                        a as nat <= max as nat,
                        b as nat <= max as nat,
                ;
                assert(match state {
                    Some((lo, hi)) => lo.wf() && hi.wf(),
                    None => true,
                });
            }
            let ghost pre = state;
            check_palindrom(&mut state, a, b);
            proof {
                lemma_acc_step(min, max, a, b, pre, state);
            }
            b = b + 1;
        }
        proof {
            lemma_acc_advance(min, max, a, state);
        }
        a = a + 1;
    }
    proof {
        assert forall|p: (u64, u64)| #[trigger]
            in_range(min, max, p) implies before(a as int, a as int, p) by {}
        lemma_acc_complete(min, max, a as int, a as int, state);
    }
    state
}

/// Every factor pair in a returned group is an ordered pair drawn from the
/// range, its product is the group's value, and that value is a decimal
/// palindrome.
pub proof fn lemma_factor_pairs_valid(
    min: u64,
    max: u64,
    lo: Palindrome,
    hi: Palindrome,
    p: (u64, u64),
)
    requires
        result_spec(min, max, Some((lo, hi))),
        lo.factor_set().contains(p) || hi.factor_set().contains(p),
    ensures
        min <= p.0 && p.0 <= p.1 && p.1 <= max,
        lo.factor_set().contains(p) ==> pair_product(p) == lo.spec_value(),
        hi.factor_set().contains(p) ==> pair_product(p) == hi.spec_value(),
        is_decimal_palindrome(lo.spec_value() as nat),
        is_decimal_palindrome(hi.spec_value() as nat),
{
}

/// All ordered factor pairs of `[min, max]` with a palindromic product have
/// one and the same product.
pub open spec fn single_pal_product(min: u64, max: u64) -> bool {
    forall|p: (u64, u64), q: (u64, u64)|
        #![trigger in_range(min, max, p), in_range(min, max, q)]
        in_range(min, max, p) && pal_pair(p) && in_range(min, max, q) && pal_pair(q)
            ==> pair_product(p) == pair_product(q)
}

/// The minimum group's value never exceeds the maximum group's value, and
/// the two are equal exactly when the range contains a single distinct
/// palindromic product value.
pub proof fn lemma_extremes_ordered(min: u64, max: u64, lo: Palindrome, hi: Palindrome)
    requires
        result_spec(min, max, Some((lo, hi))),
    ensures
        lo.spec_value() <= hi.spec_value(),
        lo.spec_value() == hi.spec_value() <==> single_pal_product(min, max),
{
    let wl = choose|p: (u64, u64)| #[trigger] lo.factor_set().contains(p);
    let wh = choose|p: (u64, u64)| #[trigger] hi.factor_set().contains(p);
    assert(in_range(min, max, wl) && pair_product(wl) == lo.spec_value());
    assert(in_range(min, max, wh) && pair_product(wh) == hi.spec_value());
    assert(pal_pair(wl));
    assert(pal_pair(wh));
    assert(lo.spec_value() <= pair_product(wh));
    if lo.spec_value() == hi.spec_value() {
        assert forall|p: (u64, u64), q: (u64, u64)|
            #![trigger in_range(min, max, p), in_range(min, max, q)]
            in_range(min, max, p) && pal_pair(p) && in_range(min, max, q) && pal_pair(
            q,
        ) implies pair_product(p) == pair_product(q) by {
            assert(lo.spec_value() <= pair_product(p) && pair_product(p) <= hi.spec_value());
            assert(lo.spec_value() <= pair_product(q) && pair_product(q) <= hi.spec_value());
        }
    }
    if single_pal_product(min, max) {
        assert(pair_product(wl) == pair_product(wh));
    }
}

/// Two results for one and the same range agree: either both are empty, or
/// both hold the same two values with the same two factor sets.
pub proof fn lemma_deterministic(
    min: u64,
    max: u64,
    r1: Option<(Palindrome, Palindrome)>,
    r2: Option<(Palindrome, Palindrome)>,
)
    requires
        result_spec(min, max, r1),
        result_spec(min, max, r2),
    ensures
        match (r1, r2) {
            (None, None) => true,
            (Some((lo1, hi1)), Some((lo2, hi2))) => lo1.spec_value() == lo2.spec_value()
                && lo1.factor_set() == lo2.factor_set() && hi1.spec_value() == hi2.spec_value()
                && hi1.factor_set() == hi2.factor_set(),
            _ => false,
        },
{
    match (r1, r2) {
        (None, None) => {},
        (None, Some((lo2, hi2))) => {
            let w = choose|p: (u64, u64)| #[trigger] lo2.factor_set().contains(p);
            assert(in_range(min, max, w) && pair_product(w) == lo2.spec_value());
            assert(pal_pair(w));
            assert(!pal_pair(w));
        },
        (Some((lo1, hi1)), None) => {
            let w = choose|p: (u64, u64)| #[trigger] lo1.factor_set().contains(p);
            assert(in_range(min, max, w) && pair_product(w) == lo1.spec_value());
            assert(pal_pair(w));
            assert(!pal_pair(w));
        },
        (Some((lo1, hi1)), Some((lo2, hi2))) => {
            let w1 = choose|p: (u64, u64)| #[trigger] lo1.factor_set().contains(p);
            let w2 = choose|p: (u64, u64)| #[trigger] lo2.factor_set().contains(p);
            let v1 = choose|p: (u64, u64)| #[trigger] hi1.factor_set().contains(p);
            let v2 = choose|p: (u64, u64)| #[trigger] hi2.factor_set().contains(p);
            assert(in_range(min, max, w1) && pair_product(w1) == lo1.spec_value());
            assert(in_range(min, max, w2) && pair_product(w2) == lo2.spec_value());
            assert(in_range(min, max, v1) && pair_product(v1) == hi1.spec_value());
            assert(in_range(min, max, v2) && pair_product(v2) == hi2.spec_value());
            assert(pal_pair(w1) && pal_pair(w2) && pal_pair(v1) && pal_pair(v2));
            assert(lo1.spec_value() <= pair_product(w2));
            assert(lo2.spec_value() <= pair_product(w1));
            assert(pair_product(v2) <= hi1.spec_value());
            assert(pair_product(v1) <= hi2.spec_value());
            assert_sets_equal!(lo1.factor_set() == lo2.factor_set(), p => {
                if lo1.factor_set().contains(p) {
                    assert(in_range(min, max, p) && pair_product(p) == lo1.spec_value());
                }
                if lo2.factor_set().contains(p) {
                    assert(in_range(min, max, p) && pair_product(p) == lo2.spec_value());
                }
            });
            assert_sets_equal!(hi1.factor_set() == hi2.factor_set(), p => {
                if hi1.factor_set().contains(p) {
                    assert(in_range(min, max, p) && pair_product(p) == hi1.spec_value());
                }
                if hi2.factor_set().contains(p) {
                    assert(in_range(min, max, p) && pair_product(p) == hi2.spec_value());
                }
            });
        },
    }
}

/// A reversed range yields the empty result, and a single-element range
/// yields the square of its one element exactly when that square is a
/// decimal palindrome - returned as both the minimum and the maximum, with
/// the single factor pair.
pub proof fn lemma_boundary(min: u64, max: u64, r: Option<(Palindrome, Palindrome)>)
    requires
        result_spec(min, max, r),
    ensures
        min > max ==> r.is_none(),
        min == max ==> (r.is_some() <==> is_decimal_palindrome((min as nat) * (min as nat))),
        min == max ==> match r {
            Some((lo, hi)) => lo.spec_value() == (min as nat) * (min as nat) && hi.spec_value()
                == (min as nat) * (min as nat) && lo.factor_set() == set![(min, min)]
                && hi.factor_set() == set![(min, min)],
            None => true,
        },
{
    if min > max {
        match r {
            Some((lo, hi)) => {
                let w = choose|p: (u64, u64)| #[trigger] lo.factor_set().contains(p);
                assert(in_range(min, max, w));
                assert(false);
            },
            None => {},
        }
    }
    if min == max {
        match r {
            Some((lo, hi)) => {
                let w = choose|p: (u64, u64)| #[trigger] lo.factor_set().contains(p);
                assert(in_range(min, max, w));
                assert(w == (min, min));
                assert(lo.spec_value() == pair_product(w));
                assert(pal_pair(w));
                assert(pair_product((min, min)) == (min as nat) * (min as nat));
                let v = choose|p: (u64, u64)| #[trigger] hi.factor_set().contains(p);
                assert(in_range(min, max, v));
                assert(v == (min, min));
                assert(hi.spec_value() == pair_product(v));
                assert_sets_equal!(lo.factor_set() == set![(min, min)], p => {
                    if lo.factor_set().contains(p) {
                        assert(in_range(min, max, p));
                    }
                    if p == (min, min) {
                        assert(in_range(min, max, p));
                        assert(pair_product(p) == lo.spec_value());
                    }
                });
                assert_sets_equal!(hi.factor_set() == set![(min, min)], p => {
                    if hi.factor_set().contains(p) {
                        assert(in_range(min, max, p));
                    }
                    if p == (min, min) {
                        assert(in_range(min, max, p));
                        assert(pair_product(p) == hi.spec_value());
                    }
                });
            },
            None => {
                if is_decimal_palindrome((min as nat) * (min as nat)) {
                    assert(in_range(min, max, (min, min)));
                    assert(pair_product((min, min)) == (min as nat) * (min as nat));
                    assert(!pal_pair((min, min)));
                    assert(false);
                }
            },
        }
    }
}

/// Folds one candidate factor pair into the running pair of extremal groups.
pub fn check_palindrom(state: &mut Option<(Palindrome, Palindrome)>, a: u64, b: u64)
    requires
        a <= b,
        (a as nat) * (b as nat) < 10000000000000000000,
        match *old(state) {
            Some((lo, hi)) => lo.wf() && hi.wf(),
            None => true,
        },
    ensures
        check_post(*old(state), a, b, *final(state)),
{
    proof {
        lemma_pow10_19();
    }
    if is_palindrome(a, b) {
        let prod = a * b;
        match state {
            None => {
                *state = Some((Palindrome::new(a, b), Palindrome::new(a, b)));
            },
            Some((lo, hi)) => {
                if prod < lo.value() {
                    *lo = Palindrome::new(a, b);
                } else if prod == lo.value() {
                    lo.insert(a, b);
                }
                if prod > hi.value() {
                    *hi = Palindrome::new(a, b);
                } else if prod == hi.value() {
                    hi.insert(a, b);
                }
            },
        }
    }
}

} // verus!
