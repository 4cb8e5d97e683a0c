//! Whole numbers too wide for a machine word, held as limbs of 64 bits with
//! the lowest limb first.

use vstd::prelude::*;

verus! {

/// What one step from a limb to the next is worth.
pub open spec fn base() -> int {
    0x1_0000_0000_0000_0000
}

/// What a one in limb `n` is worth.
pub open spec fn weight(n: nat) -> int
    decreases n,
{
    if n == 0 {
        1
    } else {
        base() * weight((n - 1) as nat)
    }
}

/// The limb at `i`, where limbs beyond the last are zero.
pub open spec fn limb(s: Seq<u64>, i: int) -> int {
    if 0 <= i < s.len() {
        s[i] as int
    } else {
        0
    }
}

/// The number that the first `n` limbs hold.
pub open spec fn upto(s: Seq<u64>, n: nat) -> int
    decreases n,
{
    if n == 0 {
        0
    } else {
        upto(s, (n - 1) as nat) + limb(s, n - 1) * weight((n - 1) as nat)
    }
}

/// The number that the limbs hold.
pub open spec fn val(s: Seq<u64>) -> int {
    upto(s, s.len())
}

/// Every weight is positive.
pub proof fn lemma_weight_positive(n: nat)
    ensures
        weight(n) > 0,
    decreases n,
{
    if n > 0 {
        lemma_weight_positive((n - 1) as nat);
        assert(base() * weight((n - 1) as nat) > 0) by (nonlinear_arith)
            requires
                weight((n - 1) as nat) > 0,
                base() > 0,
        ;
    }
}

/// The first `n` limbs hold less than the weight of limb `n`.
pub proof fn lemma_upto_bound(s: Seq<u64>, n: nat)
    ensures
        0 <= upto(s, n) < weight(n),
    decreases n,
{
    if n > 0 {
        let w = weight((n - 1) as nat);
        let x = limb(s, n - 1);
        lemma_upto_bound(s, (n - 1) as nat);
        assert(0 <= x * w && x * w + w <= base() * w) by (nonlinear_arith)
            requires
                0 <= x <= base() - 1,
                w > 0,
        ;
    }
}

/// Limbs beyond the last add nothing.
pub proof fn lemma_upto_beyond(s: Seq<u64>, n: nat)
    requires
        n >= s.len(),
    ensures
        upto(s, n) == val(s),
    decreases n,
{
    if n > s.len() {
        lemma_upto_beyond(s, (n - 1) as nat);
    }
}

/// A limb added at the end leaves what the limbs before it hold.
pub proof fn lemma_upto_push(s: Seq<u64>, x: u64, n: nat)
    requires
        n <= s.len(),
    ensures
        upto(s.push(x), n) == upto(s, n),
    decreases n,
{
    if n > 0 {
        lemma_upto_push(s, x, (n - 1) as nat);
    }
}

/// A limb added at the end counts by its weight.
pub proof fn lemma_val_push(s: Seq<u64>, x: u64)
    ensures
        val(s.push(x)) == val(s) + x * weight(s.len()),
{
    lemma_upto_push(s, x, s.len());
}

/// The number `a * m + c`.
pub(crate) fn mul_add(a: &Vec<u64>, m: u64, c: &Vec<u64>) -> (res: Vec<u64>)
    ensures
        val(res@) == val(a@) * m + val(c@),
{
    let n: usize = if a.len() > c.len() {
        a.len()
    } else {
        c.len()
    };
    let mut res: Vec<u64> = Vec::new();
    let mut carry: u64 = 0;
    let mut i: usize = 0;
    while i < n
        invariant
            i <= n,
            n >= a.len(),
            n >= c.len(),
            res.len() == i,
            val(res@) + carry * weight(i as nat) == upto(a@, i as nat) * m + upto(c@, i as nat),
        decreases n - i,
    {
        let x: u64 = if i < a.len() {
            a[i]
        } else {
            0
        };
        let y: u64 = if i < c.len() {
            c[i]
        } else {
            0
        };
        assert(x * m <= 0xffff_ffff_ffff_ffff * 0xffff_ffff_ffff_ffff) by (nonlinear_arith)
            requires
                0 <= x <= 0xffff_ffff_ffff_ffff,
                0 <= m <= 0xffff_ffff_ffff_ffff,
        ;
        let t: u128 = (x as u128) * (m as u128) + (y as u128) + (carry as u128);
        let lo: u64 = (t % 0x1_0000_0000_0000_0000) as u64;
        let hi: u64 = (t / 0x1_0000_0000_0000_0000) as u64;
        proof {
            let w = weight(i as nat);
            lemma_val_push(res@, lo);
            assert(x == limb(a@, i as int) && y == limb(c@, i as int));
            assert(lo * w + hi * (base() * w) == (x * m) * w + y * w + carry * w)
                by (nonlinear_arith)
                requires
                    hi * base() + lo == x * m + y + carry,
            ;
            assert((upto(a@, i as nat) + x * w) * m == upto(a@, i as nat) * m + (x * m) * w)
                by (nonlinear_arith);
        }
        res.push(lo);
        carry = hi;
        i += 1;
    }
    proof {
        lemma_val_push(res@, carry);
        lemma_upto_beyond(a@, n as nat);
        lemma_upto_beyond(c@, n as nat);
    }
    res.push(carry);
    res
}

/// Whether `a` is at most `b`.
pub(crate) fn at_most(a: &Vec<u64>, b: &Vec<u64>) -> (r: bool)
    ensures
        r == (val(a@) <= val(b@)),
{
    let n: usize = if a.len() > b.len() {
        a.len()
    } else {
        b.len()
    };
    proof {
        lemma_upto_beyond(a@, n as nat);
        lemma_upto_beyond(b@, n as nat);
    }
    let mut i: usize = n;
    while i > 0
        invariant
            i <= n,
            val(a@) - upto(a@, i as nat) == val(b@) - upto(b@, i as nat),
        decreases i,
    {
        i -= 1;
        let x: u64 = if i < a.len() {
            a[i]
        } else {
            0
        };
        let y: u64 = if i < b.len() {
            b[i]
        } else {
            0
        };
        proof {
            let w = weight(i as nat);
            lemma_upto_bound(a@, i as nat);
            lemma_upto_bound(b@, i as nat);
            assert(x == limb(a@, i as int) && y == limb(b@, i as int));
            if x < y {
                assert(x * w + w <= y * w) by (nonlinear_arith)
                    requires
                        x + 1 <= y,
                        w > 0,
                ;
            }
            if x > y {
                assert(y * w + w <= x * w) by (nonlinear_arith)
                    requires
                        y + 1 <= x,
                        w > 0,
                ;
            }
        }
        if x < y {
            return true;
        }
        if x > y {
            return false;
        }
    }
    true
}

} // verus!
