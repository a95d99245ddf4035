//! The recursive decimation-in-frequency driver, as the ordered list of
//! butterflies it performs. Each butterfly combines the samples at `top` and
//! `bottom`: the sum goes to `top`, the difference times the twiddle factor
//! `exp(-2*pi*i*k/size)` goes to `bottom`.
use vstd::prelude::*;
use crate::size::{is_pow2, size_check, check_size, FftError};

verus! {

/// One butterfly: two sample indices and the twiddle parameters `k / size`.
#[derive(Debug, Clone, Copy, PartialEq, Eq, Structural)]
pub struct Butterfly {
    pub top: usize,
    pub bottom: usize,
    pub k: usize,
    pub size: usize,
}

/// The butterflies of one stage on the block `[offset, offset + n)`: index
/// `k` of the first half is paired with index `k` of the second half.
pub open spec fn stage(offset: nat, n: nat) -> Seq<Butterfly> {
    Seq::new(
        n / 2,
        |k: int|
            Butterfly {
                top: (offset + k) as usize,
                bottom: (offset + n / 2 + k) as usize,
                k: k as usize,
                size: n as usize,
            },
    )
}

/// All butterflies of the transform of the block `[offset, offset + n)`, in
/// the order they run: this block's stage, then the first half's transform,
/// then the second half's.
pub open spec fn plan(offset: nat, n: nat) -> Seq<Butterfly>
    decreases n,
{
    if n <= 1 {
        Seq::empty()
    } else {
        stage(offset, n) + plan(offset, n / 2) + plan(offset + n / 2, n / 2)
    }
}

/// `b` stays inside the block `[offset, offset + n)`: it pairs two indices
/// half its size apart, and its twiddle index lies in the first half.
pub open spec fn within_block(b: Butterfly, offset: nat, n: nat) -> bool {
    &&& offset <= b.top
    &&& b.top < b.bottom < offset + n
    &&& b.bottom == b.top + b.size / 2
    &&& b.k < b.size / 2
    &&& 2 <= b.size <= n
    &&& is_pow2(b.size as nat)
}

/// Every butterfly of a block's transform touches only that block, so a
/// plan for `n` samples never indexes past `n`.
pub proof fn lemma_plan_within_block(offset: nat, n: nat)
    requires
        is_pow2(n),
        offset + n <= usize::MAX,
    ensures
        forall|i: int| 0 <= i < plan(offset, n).len() ==> #[trigger] within_block(plan(offset, n)[i], offset, n),
    decreases n,
{
    if n > 1 {
        let h = n / 2;
        assert(n % 2 == 0 && is_pow2(h));
        lemma_plan_within_block(offset, h);
        lemma_plan_within_block(offset + h, h);
        let st = stage(offset, n);
        let first = plan(offset, h);
        let second = plan(offset + h, h);
        assert forall|i: int| 0 <= i < plan(offset, n).len() implies #[trigger] within_block(plan(offset, n)[i], offset, n) by {
            if i < st.len() {
                assert(plan(offset, n)[i] == st[i]);
            } else if i < st.len() + first.len() {
                assert(plan(offset, n)[i] == first[i - st.len()]);
                assert(within_block(first[i - st.len()], offset, h));
            } else {
                assert(plan(offset, n)[i] == second[i - st.len() - first.len()]);
                assert(within_block(second[i - st.len() - first.len()], offset + h, h));
            }
        }
    }
}

/// Appends the stage of the block `[offset, offset + n)`.
fn push_stage(offset: usize, n: usize, out: &mut Vec<Butterfly>)
    requires
        offset + n <= usize::MAX,
    ensures
        final(out)@ == old(out)@ + stage(offset as nat, n as nat),
{
    let n_half: usize = n / 2;
    let mut k: usize = 0;
    while k < n_half
        invariant
            offset + n <= usize::MAX,
            n_half == n / 2,
            k <= n_half,
            out@ == old(out)@ + stage(offset as nat, n as nat).subrange(0, k as int),
        decreases n_half - k,
    {
        out.push(Butterfly { top: offset + k, bottom: offset + n_half + k, k, size: n });
        assert(stage(offset as nat, n as nat).subrange(0, k + 1) =~= stage(offset as nat, n as nat).subrange(0, k as int).push(
            stage(offset as nat, n as nat)[k as int],
        ));
        k = k + 1;
    }
    assert(stage(offset as nat, n as nat).subrange(0, n_half as int) =~= stage(offset as nat, n as nat));
}

/// Appends the butterflies of the transform of `[offset, offset + n)`: the
/// stage over the whole block, then the two halves on their own.
fn push_plan(offset: usize, n: usize, out: &mut Vec<Butterfly>)
    requires
        is_pow2(n as nat),
        offset + n <= usize::MAX,
    ensures
        final(out)@ == old(out)@ + plan(offset as nat, n as nat),
    decreases n,
{
    if n > 1 {
        let n_half: usize = n / 2;
        push_stage(offset, n, out);
        push_plan(offset, n_half, out);
        push_plan(offset + n_half, n_half, out);
        assert(out@ =~= old(out)@ + plan(offset as nat, n as nat));
    }
}

/// The butterflies that transform `n` complex samples held as separate real
/// and imaginary sequences of the given lengths, or why the request is refused.
pub fn transform_plan(n: usize, real_len: usize, imag_len: usize) -> (r: Result<Vec<Butterfly>, FftError>)
    ensures
        r is Ok <==> size_check(n as nat, real_len as nat, imag_len as nat) is Ok,
        r matches Err(e) ==> size_check(n as nat, real_len as nat, imag_len as nat) == Err::<(), FftError>(e),
        r matches Ok(p) ==> p@ == plan(0, n as nat),
        r matches Ok(p) ==> forall|i: int| 0 <= i < p@.len() ==> #[trigger] within_block(p@[i], 0, n as nat),
{
    match check_size(n, real_len, imag_len) {
        Err(e) => Err(e),
        Ok(()) => {
            let mut out: Vec<Butterfly> = Vec::new();
            push_plan(0, n, &mut out);
            assert(out@ =~= plan(0, n as nat));
            proof {
                lemma_plan_within_block(0, n as nat);
            }
            Ok(out)
        },
    }
}

} // verus!
