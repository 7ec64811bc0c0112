//! Whole numbers that no machine word holds, as digits of 32 bits, the lowest first.

use vstd::arithmetic::power2::{lemma2_to64, lemma_pow2_adds, lemma_pow2_pos, pow2};
use vstd::prelude::*;

verus! {

/// What one more in digit `i` is worth.
pub open spec fn weight(i: nat) -> nat {
    pow2(32 * i)
}

/// The number that the digits stand for.
pub open spec fn amount(digits: Seq<u32>) -> nat
    decreases digits.len(),
{
    if digits.len() == 0 {
        0
    } else {
        amount(digits.drop_last()) + digits.last() as nat * weight((digits.len() - 1) as nat)
    }
}

pub(crate) proof fn lemma_weight(i: nat)
    ensures
        weight(i) > 0,
        weight(0) == 1,
        weight(i + 1) == 0x1_0000_0000 * weight(i),
{
    lemma2_to64();
    lemma_pow2_pos(32 * i);
    lemma_pow2_adds(32, 32 * i);
    assert(32 * (i + 1) == 32 + 32 * i);
}

proof fn lemma_below(digits: Seq<u32>)
    ensures
        amount(digits) < weight(digits.len()),
    decreases digits.len(),
{
    lemma_weight(0);
    if digits.len() > 0 {
        let n = (digits.len() - 1) as nat;
        lemma_weight(n);
        lemma_below(digits.drop_last());
        let w = weight(n);
        let d = digits.last() as nat;
        assert(d * w + w <= 0x1_0000_0000 * w) by (nonlinear_arith)
            requires
                d < 0x1_0000_0000,
        ;
    }
}

proof fn lemma_push(digits: Seq<u32>, x: u32)
    ensures
        amount(digits.push(x)) == amount(digits) + x as nat * weight(digits.len()),
{
    assert(digits.push(x).drop_last() =~= digits);
}

proof fn lemma_take(digits: Seq<u32>, i: int)
    requires
        0 <= i < digits.len(),
    ensures
        amount(digits.take(i + 1)) == amount(digits.take(i)) + digits[i] as nat * weight(i as nat),
{
    assert(digits.take(i + 1).drop_last() =~= digits.take(i));
}

/// The number after one digit changed.
pub(crate) proof fn lemma_update(digits: Seq<u32>, k: int, x: u32)
    requires
        0 <= k < digits.len(),
    ensures
        amount(digits.update(k, x)) + digits[k] as nat * weight(k as nat) == amount(digits)
            + x as nat * weight(k as nat),
    decreases digits.len(),
{
    let after = digits.update(k, x);
    if k < digits.len() - 1 {
        lemma_update(digits.drop_last(), k, x);
        assert(after.drop_last() =~= digits.drop_last().update(k, x));
    } else {
        assert(after.drop_last() =~= digits.drop_last());
    }
}

/// Zero, in `n` digits.
pub fn zero(n: usize) -> (r: Vec<u32>)
    ensures
        r@.len() == n,
        amount(r@) == 0,
        forall|k: int| 0 <= k < n ==> r@[k] == 0,
{
    let mut r: Vec<u32> = Vec::new();
    let mut i: usize = 0;
    while i < n
        invariant
            i <= n,
            r@.len() == i,
            amount(r@) == 0,
            forall|k: int| 0 <= k < i ==> r@[k] == 0,
        decreases n - i,
    {
        proof {
            lemma_push(r@, 0);
        }
        r.push(0);
        i = i + 1;
    }
    r
}

/// A number with one more digit.
pub fn widened(a: Vec<u32>) -> (r: Vec<u32>)
    ensures
        r@.len() == a@.len() + 1,
        amount(r@) == amount(a@),
{
    let mut r: Vec<u32> = a;
    proof {
        lemma_push(r@, 0);
        assert(0 * weight(r@.len()) == 0);
    }
    r.push(0);
    r
}

/// The sum of two numbers of as many digits, with one more digit.
pub fn plus(a: &Vec<u32>, b: &Vec<u32>) -> (r: Vec<u32>)
    requires
        a@.len() == b@.len(),
    ensures
        r@.len() == a@.len() + 1,
        amount(r@) == amount(a@) + amount(b@),
{
    let n: usize = a.len();
    let mut r: Vec<u32> = Vec::new();
    let mut carry: u64 = 0;
    let mut i: usize = 0;
    proof {
        assert(a@.take(0) =~= Seq::empty());
        assert(b@.take(0) =~= Seq::empty());
        assert(carry as nat * weight(0) == 0);
    }
    while i < n
        invariant
            i <= n,
            n == a@.len(),
            n == b@.len(),
            r@.len() == i,
            carry <= 1,
            amount(r@) + carry as nat * weight(i as nat) == amount(a@.take(i as int)) + amount(
                b@.take(i as int),
            ),
        decreases n - i,
    {
        let sum: u64 = a[i] as u64 + b[i] as u64 + carry;
        let digit: u32 = (sum % 0x1_0000_0000) as u32;
        let next: u64 = sum / 0x1_0000_0000;
        proof {
            lemma_push(r@, digit);
            lemma_take(a@, i as int);
            lemma_take(b@, i as int);
            lemma_weight(i as nat);
            let w = weight(i as nat);
            let x = a@[i as int] as nat;
            let y = b@[i as int] as nat;
            assert(digit as nat * w + next as nat * (0x1_0000_0000 * w) == x * w + y * w
                + carry as nat * w) by (nonlinear_arith)
                requires
                    digit + 0x1_0000_0000 * next == x + y + carry,
            ;
        }
        r.push(digit);
        carry = next;
        i = i + 1;
    }
    proof {
        lemma_push(r@, carry as u32);
        assert(a@.take(i as int) =~= a@);
        assert(b@.take(i as int) =~= b@);
    }
    r.push(carry as u32);
    r
}

/// The difference of two numbers of as many digits, and whether the second is the larger one. The
/// difference is then too large by what one more digit would be worth.
pub fn minus(a: &Vec<u32>, b: &Vec<u32>) -> (r: (Vec<u32>, bool))
    requires
        a@.len() == b@.len(),
    ensures
        r.0@.len() == a@.len(),
        r.1 == (amount(a@) < amount(b@)),
        amount(r.0@) == amount(a@) - amount(b@) + (if r.1 {
            weight(a@.len()) as int
        } else {
            0int
        }),
{
    let n: usize = a.len();
    let mut r: Vec<u32> = Vec::new();
    let mut borrow: u64 = 0;
    let mut i: usize = 0;
    proof {
        assert(a@.take(0) =~= Seq::empty());
        assert(b@.take(0) =~= Seq::empty());
        assert(borrow as nat * weight(0) == 0);
    }
    while i < n
        invariant
            i <= n,
            n == a@.len(),
            n == b@.len(),
            r@.len() == i,
            borrow <= 1,
            amount(r@) + amount(b@.take(i as int)) == amount(a@.take(i as int)) + borrow as nat
                * weight(i as nat),
        decreases n - i,
    {
        let rest: u64 = 0x1_0000_0000 + a[i] as u64 - b[i] as u64 - borrow;
        let digit: u32 = (rest % 0x1_0000_0000) as u32;
        let next: u64 = if rest < 0x1_0000_0000 {
            1
        } else {
            0
        };
        proof {
            lemma_push(r@, digit);
            lemma_take(a@, i as int);
            lemma_take(b@, i as int);
            lemma_weight(i as nat);
            let w = weight(i as nat);
            let x = a@[i as int] as nat;
            let y = b@[i as int] as nat;
            assert(digit as nat * w + y * w + borrow as nat * w == x * w + next as nat * (
            0x1_0000_0000 * w)) by (nonlinear_arith)
                requires
                    digit + y + borrow == x + 0x1_0000_0000 * next,
            ;
        }
        r.push(digit);
        borrow = next;
        i = i + 1;
    }
    proof {
        assert(a@.take(i as int) =~= a@);
        assert(b@.take(i as int) =~= b@);
        lemma_below(r@);
        assert(borrow as nat * weight(n as nat) == (if borrow == 1 {
            weight(n as nat)
        } else {
            0
        })) by (nonlinear_arith)
            requires
                borrow <= 1,
        ;
    }
    (r, borrow == 1)
}

/// Whether a number is at most another one of as many digits.
pub fn at_most(a: &Vec<u32>, b: &Vec<u32>) -> (r: bool)
    requires
        a@.len() == b@.len(),
    ensures
        r == (amount(a@) <= amount(b@)),
{
    !minus(b, a).1
}

/// How far two numbers of as many digits are apart.
pub fn apart(a: &Vec<u32>, b: &Vec<u32>) -> (r: Vec<u32>)
    requires
        a@.len() == b@.len(),
    ensures
        r@.len() == a@.len(),
        amount(r@) == (if amount(a@) >= amount(b@) {
            amount(a@) - amount(b@)
        } else {
            amount(b@) - amount(a@)
        }),
{
    let (r, below) = minus(a, b);
    if below {
        minus(b, a).0
    } else {
        r
    }
}

/// Adds the product of a number and a digit, moved up by `j` digits.
fn add_product(r: &mut Vec<u32>, a: &Vec<u32>, d: u32, j: usize)
    requires
        j + a@.len() < old(r)@.len(),
        forall|k: int| j + a@.len() <= k < old(r)@.len() ==> old(r)@[k] == 0,
    ensures
        final(r)@.len() == old(r)@.len(),
        forall|k: int| j + a@.len() < k < old(r)@.len() ==> final(r)@[k] == 0,
        amount(final(r)@) == amount(old(r)@) + amount(a@) * d as nat * weight(j as nat),
{
    let n: usize = a.len();
    let len: usize = r.len();
    let ghost base = amount(r@);
    let ghost q = weight(j as nat);
    let mut carry: u64 = 0;
    let mut i: usize = 0;
    proof {
        assert(a@.take(0) =~= Seq::empty());
        assert(0 * d as nat * q == 0) by (nonlinear_arith);
        assert(carry as nat * weight((0 + j) as nat) == 0);
    }
    while i < n
        invariant
            i <= n,
            n == a@.len(),
            r@.len() == len,
            j + n < len,
            q == weight(j as nat),
            carry < 0x1_0000_0000,
            forall|k: int| j + n <= k < len ==> r@[k] == 0,
            amount(r@) + carry as nat * weight((i + j) as nat) == base + amount(a@.take(i as int))
                * d as nat * q,
        decreases n - i,
    {
        let k: usize = i + j;
        let x: u32 = a[i];
        proof {
            assert(x as u64 * d as u64 <= 0xffff_fffe_0000_0001) by (nonlinear_arith)
                requires
                    x <= 0xffff_ffff,
                    d <= 0xffff_ffff,
            ;
        }
        let old_digit: u32 = r[k];
        let total: u64 = x as u64 * d as u64 + old_digit as u64 + carry;
        let digit: u32 = (total % 0x1_0000_0000) as u32;
        let next: u64 = total / 0x1_0000_0000;
        proof {
            lemma_update(r@, k as int, digit);
            lemma_take(a@, i as int);
            lemma_weight(k as nat);
            lemma_pow2_adds(32 * i as nat, 32 * j as nat);
            assert(32 * k == 32 * i + 32 * j);
            let w = weight(k as nat);
            let p = weight(i as nat);
            assert(w == p * q);
            let part = amount(a@.take(i as int));
            let more = amount(a@.take(i + 1));
            let xx = x as nat;
            let dd = d as nat;
            assert(more * dd * q == part * dd * q + xx * dd * w) by (nonlinear_arith)
                requires
                    more == part + xx * p,
                    w == p * q,
            ;
            assert(digit as nat * w + next as nat * (0x1_0000_0000 * w) == xx * dd * w
                + old_digit as nat * w + carry as nat * w) by (nonlinear_arith)
                requires
                    digit + 0x1_0000_0000 * next == xx * dd + old_digit + carry,
            ;
        }
        r.set(k, digit);
        carry = next;
        i = i + 1;
    }
    proof {
        lemma_update(r@, (n + j) as int, carry as u32);
        assert(a@.take(i as int) =~= a@);
        assert(0 * weight((n + j) as nat) == 0);
    }
    r.set(n + j, carry as u32);
}

/// The product of two numbers.
pub fn times(a: &Vec<u32>, b: &Vec<u32>) -> (r: Vec<u32>)
    requires
        a@.len() + b@.len() <= usize::MAX,
    ensures
        r@.len() == a@.len() + b@.len(),
        amount(r@) == amount(a@) * amount(b@),
{
    let n: usize = a.len();
    let m: usize = b.len();
    let mut r: Vec<u32> = zero(n + m);
    let mut j: usize = 0;
    proof {
        assert(b@.take(0) =~= Seq::empty());
        assert(amount(a@) * 0 == 0);
    }
    while j < m
        invariant
            j <= m,
            n == a@.len(),
            m == b@.len(),
            r@.len() == n + m,
            n + m <= usize::MAX,
            forall|k: int| j + n <= k < n + m ==> r@[k] == 0,
            amount(r@) == amount(a@) * amount(b@.take(j as int)),
        decreases m - j,
    {
        add_product(&mut r, a, b[j], j);
        proof {
            lemma_take(b@, j as int);
            let all = amount(a@);
            let part = amount(b@.take(j as int));
            let d = b@[j as int] as nat;
            let w = weight(j as nat);
            assert(all * (part + d * w) == all * part + all * d * w) by (nonlinear_arith);
        }
        j = j + 1;
    }
    proof {
        assert(b@.take(j as int) =~= b@);
    }
    r
}

} // verus!
