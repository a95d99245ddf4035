//! Bit-reversal reordering: moves the element at index `j` to the index whose
//! binary digits are those of `j` read backwards.
use vstd::prelude::*;
use vstd::arithmetic::div_mod::{lemma_div_denominator, lemma_fundamental_div_mod, lemma_mod_breakdown};
use crate::size::{is_pow2, lemma_pow2_half};

verus! {

/// The low `log2(n)` bits of `j`, reversed (`n` a power of two).
pub open spec fn bit_rev(j: nat, n: nat) -> nat
    decreases n,
{
    if n <= 1 {
        0
    } else {
        bit_rev(j / 2, n / 2) + (j % 2) * (n / 2)
    }
}

/// Adds one to a bit-reversed counter: `k` is the weight of the counter's
/// lowest digit, which stands at the top of `i`.
pub open spec fn rev_increment(i: nat, k: nat) -> nat
    decreases k,
{
    if k == 0 {
        i
    } else if i >= k {
        rev_increment((i - k) as nat, k / 2)
    } else {
        i + k
    }
}

/// `s` with each element moved to its bit-reversed index.
pub open spec fn bit_reversed<T>(s: Seq<T>) -> Seq<T> {
    Seq::new(s.len(), |x: int| s[bit_rev(x as nat, s.len()) as int])
}

/// Flipping the single bit `k` of a number below `2 * k`.
proof fn lemma_xor_bit(i: usize, k: usize)
    requires
        k != 0,
        k & (k - 1) as usize == 0,
        i / 2 < k,
    ensures
        i >= k ==> i ^ k == i - k,
        i < k ==> i ^ k == i + k,
{
    assert(i >= k ==> i ^ k == i - k) by (bit_vector)
        requires
            k != 0,
            k & (k - 1) as usize == 0,
            i / 2 < k,
    ;
    assert(i < k ==> i ^ k == i + k) by (bit_vector)
        requires
            k != 0,
            k & (k - 1) as usize == 0,
            i / 2 < k,
    ;
}

/// A power of two has a single bit set.
proof fn lemma_pow2_single_bit(k: usize)
    requires
        is_pow2(k as nat),
    ensures
        k != 0,
        k & (k - 1) as usize == 0,
    decreases k,
{
    if k == 1 {
        assert(1usize & 0usize == 0) by (bit_vector);
    } else {
        lemma_pow2_half(k as nat);
        let m: usize = k / 2;
        lemma_pow2_single_bit(m);
        assert(k == m + m);
        assert(k & (k - 1) as usize == 0) by (bit_vector)
            requires
                m != 0,
                m & (m - 1) as usize == 0,
                k == m + m,
        ;
    }
}

/// Index zero is its own reversal.
pub proof fn lemma_bit_rev_zero(n: nat)
    ensures
        bit_rev(0, n) == 0,
    decreases n,
{
    if n > 1 {
        lemma_bit_rev_zero(n / 2);
        assert(0nat / 2 == 0 && 0nat % 2 == 0);
        assert(bit_rev(0, n) == bit_rev(0, n / 2) + 0 * (n / 2));
    }
}

/// A bit-reversed index stays below the size.
pub proof fn lemma_bit_rev_bound(j: nat, n: nat)
    requires
        is_pow2(n),
    ensures
        bit_rev(j, n) < n,
    decreases n,
{
    if n > 1 {
        let h = n / 2;
        lemma_pow2_half(n);
        lemma_bit_rev_bound(j / 2, h);
        assert((j % 2) * h <= h) by (nonlinear_arith)
            requires
                j % 2 < 2,
        ;
    }
}

/// Reversal read from the other end: the top digit of `j` becomes the lowest.
pub proof fn lemma_bit_rev_top(j: nat, n: nat)
    requires
        is_pow2(n),
        n >= 2,
        j < n,
    ensures
        bit_rev(j, n) == 2 * bit_rev(j % (n / 2), n / 2) + j / (n / 2),
    decreases n,
{
    let h = n / 2;
    if n == 2 {
        assert(bit_rev(j / 2, 1) == 0);
        assert(bit_rev(j % 1, 1) == 0);
        assert(j % 2 == j && j / 1 == j);
        assert((j % 2) * 1 == j % 2);
    } else {
        let q = h / 2;
        lemma_pow2_half(n);
        lemma_pow2_half(h);
        lemma_bit_rev_top(j / 2, h);
        // bit_rev(j / 2, h) == 2 * bit_rev((j / 2) % q, q) + (j / 2) / q
        lemma_div_denominator(j as int, 2, q as int);
        lemma_mod_breakdown(j as int, 2, q as int);
        lemma_fundamental_div_mod((j % h) as int, 2);
        assert((j % h) % 2 == j % 2) by {
            lemma_fundamental_div_mod(j as int, 2);
            lemma_fundamental_div_mod((j % h) as int, 2);
        }
        assert((j % h) / 2 == (j / 2) % q);
        assert((j / 2) / q == j / h);
        assert(bit_rev(j % h, h) == bit_rev((j % h) / 2, q) + ((j % h) % 2) * q);
        assert(bit_rev(j, n) == bit_rev(j / 2, h) + (j % 2) * h);
        assert((j % 2) * h == 2 * ((j % 2) * q)) by (nonlinear_arith)
            requires
                h == 2 * q,
        ;
    }
}

/// Reversing twice gives the index back.
pub proof fn lemma_bit_rev_involution(j: nat, n: nat)
    requires
        is_pow2(n),
        j < n,
    ensures
        bit_rev(bit_rev(j, n), n) == j,
    decreases n,
{
    if n > 1 {
        let h = n / 2;
        let r = bit_rev(j, n);
        let b = j % 2;
        lemma_bit_rev_bound(j / 2, h);
        lemma_bit_rev_bound(j, n);
        lemma_bit_rev_top(r, n);
        lemma_bit_rev_involution(j / 2, h);
        let a = bit_rev(j / 2, h);
        lemma_pow2_half(n);
        assert(r == a + b * h);
        assert(r % h == a && r / h == b) by (nonlinear_arith)
            requires
                r == a + b * h,
                a < h,
                b < 2,
        ;
    }
}

/// Reversing `j + 1` is one reversed increment of the reversal of `j`.
pub proof fn lemma_bit_rev_succ(j: nat, n: nat)
    requires
        is_pow2(n),
        j + 1 < n,
    ensures
        bit_rev(j + 1, n) == rev_increment(bit_rev(j, n), n / 2),
    decreases n,
{
    let h = n / 2;
    lemma_bit_rev_bound(j / 2, h);
    if j % 2 == 0 {
        assert((j + 1) / 2 == j / 2 && (j + 1) % 2 == 1);
    } else {
        assert((j + 1) / 2 == j / 2 + 1 && (j + 1) % 2 == 0);
        lemma_bit_rev_succ(j / 2, h);
    }
}

/// Reordering twice gives the sequence back: the bit-reversal permutation is
/// its own inverse.
pub proof fn lemma_bit_reversed_twice<T>(s: Seq<T>)
    requires
        is_pow2(s.len()),
    ensures
        bit_reversed(bit_reversed(s)) == s,
{
    assert forall|x: int| 0 <= x < s.len() implies #[trigger] bit_reversed(bit_reversed(s))[x] == s[x] by {
        lemma_bit_rev_bound(x as nat, s.len());
        lemma_bit_rev_involution(x as nat, s.len());
    }
    assert(bit_reversed(bit_reversed(s)) =~= s);
}

/// Where element `x` stands after the swaps for the indices below `j`.
spec fn swapped_so_far<T>(s: Seq<T>, j: nat, x: int) -> T {
    let r = bit_rev(x as nat, s.len()) as int;
    if x < j || r < j {
        s[r]
    } else {
        s[x]
    }
}

/// Steps a bit-reversed counter from `bit_rev(j - 1, n)` to `bit_rev(j, n)`
/// by flipping bits from the top down.
fn next_reversed(i: usize, n: usize, Ghost(j): Ghost<nat>) -> (r: usize)
    requires
        is_pow2(n as nat),
        1 <= j < n,
        i == bit_rev((j - 1) as nat, n as nat),
    ensures
        r == bit_rev(j, n as nat),
{
    proof {
        lemma_bit_rev_succ((j - 1) as nat, n as nat);
        lemma_bit_rev_bound((j - 1) as nat, n as nat);
        lemma_pow2_half(n as nat);
        lemma_pow2_single_bit(n / 2);
        lemma_xor_bit(i, n / 2);
    }
    let ghost target = bit_rev(j, n as nat);
    let mut k: usize = n >> 1;
    assert(k == n / 2) by (bit_vector)
        requires
            k == n >> 1,
    ;
    let mut i: usize = i ^ k;
    while k > i
        invariant
            k == 0 || is_pow2(k as nat),
            k <= i ==> i == target,
            i < k ==> target == rev_increment(i as nat, (k / 2) as nat),
        decreases k,
    {
        let ghost prev_k = k;
        k = k >> 1;
        assert(k == prev_k / 2) by (bit_vector)
            requires
                k == prev_k >> 1,
        ;
        if k == 0 {
            assert(i ^ 0usize == i) by (bit_vector);
        } else {
            proof {
                lemma_pow2_half(prev_k as nat);
                lemma_pow2_single_bit(k);
                lemma_xor_bit(i, k);
            }
        }
        i = i ^ k;
    }
    i
}

/// Reorders `data` so that the element at index `j` moves to `bit_rev(j)`,
/// swapping each pair once. The reversed index is kept as a counter that is
/// stepped with XOR from one `j` to the next.
pub fn bit_reversal_permutation<T: Copy>(data: &mut [T])
    requires
        is_pow2(old(data)@.len()),
    ensures
        final(data)@ == bit_reversed(old(data)@),
{
    let n: usize = data.len();
    let ghost orig = data@;
    if n <= 2 {
        assert(data@ =~= bit_reversed(orig)) by {
            lemma_bit_rev_zero(n as nat);
            if n == 2 {
                assert(bit_rev(0, 1) == 0);
                assert(1nat / 2 == 0 && 1nat % 2 == 1 && 2nat / 2 == 1);
                assert(bit_rev(1, 2) == bit_rev(0, 1) + 1 * 1);
            }
        }
        return;
    }
    let mut i: usize = 0;
    let mut j: usize = 1;
    proof {
        lemma_bit_rev_zero(n as nat);
    }
    assert forall|x: int| 0 <= x < n implies #[trigger] data@[x] == swapped_so_far(orig, 1, x) by {
        lemma_bit_rev_involution(x as nat, n as nat);
    }
    while j < n - 1
        invariant
            is_pow2(n as nat),
            n > 2,
            1 <= j <= n - 1,
            data@.len() == n,
            orig.len() == n,
            i == bit_rev((j - 1) as nat, n as nat),
            forall|x: int| 0 <= x < n ==> #[trigger] data@[x] == swapped_so_far(orig, j as nat, x),
        decreases n - j,
    {
        i = next_reversed(i, n, Ghost(j as nat));
        proof {
            lemma_bit_rev_bound(j as nat, n as nat);
            lemma_bit_rev_involution(j as nat, n as nat);
        }
        if j < i {
            let a = data[j];
            let b = data[i];
            data[j] = b;
            data[i] = a;
        }
        assert forall|x: int| 0 <= x < n implies #[trigger] data@[x] == swapped_so_far(orig, (j + 1) as nat, x) by {
            lemma_bit_rev_bound(x as nat, n as nat);
            lemma_bit_rev_involution(x as nat, n as nat);
        }
        j = j + 1;
    }
    assert forall|x: int| 0 <= x < n implies #[trigger] data@[x] == bit_reversed(orig)[x] by {
        lemma_bit_rev_bound(x as nat, n as nat);
        lemma_bit_rev_involution(x as nat, n as nat);
    }
    assert(data@ =~= bit_reversed(orig));
}

} // verus!
