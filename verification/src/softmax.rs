//! The masked softmax of one row.
use vstd::prelude::*;
use crate::arithmetic::{
    difference_of, exp_of, lemma_partial_sums_empty, lemma_partial_sums_push, partial_sums_of,
    quotient_of, running_sum_of, Arithmetic,
};
use crate::binary32::Binary32;
use crate::tensor::Tensor;

verus! {

/// The largest of the first `n` elements of `s`, found from the first
/// element on with `max`.
pub open spec fn prefix_max(s: Seq<Binary32>, n: int) -> Binary32
    decreases n,
{
    if n <= 1 {
        s[0]
    } else {
        prefix_max(s, n - 1).spec_max(s[n - 1])
    }
}

/// The largest of the first `n` elements is one of them, a NaN only where
/// all of them are NaNs, and at least each of them where none is a NaN.
pub proof fn lemma_prefix_max(s: Seq<Binary32>, n: int)
    requires
        1 <= n <= s.len(),
    ensures
        exists|j: int| 0 <= j < n && prefix_max(s, n) == #[trigger] s[j],
        prefix_max(s, n).spec_is_nan() ==> forall|j: int|
            0 <= j < n ==> (#[trigger] s[j]).spec_is_nan(),
        forall|j: int|
            0 <= j < n && !(#[trigger] s[j]).spec_is_nan() ==> s[j].spec_le(prefix_max(s, n)),
    decreases n,
{
    if n > 1 {
        lemma_prefix_max(s, n - 1);
        let before = prefix_max(s, n - 1);
        let j0 = choose|j: int| 0 <= j < n - 1 && before == #[trigger] s[j];
        if prefix_max(s, n) == s[j0] {
            assert(0 <= j0 < n && prefix_max(s, n) == s[j0]);
        } else {
            assert(prefix_max(s, n) == s[n - 1]);
        }
    } else {
        assert(prefix_max(s, n) == s[0]);
    }
}

/// `w` is an exponential of a difference `v - max`.
pub open spec fn shifted_exp_of<A: Arithmetic>(v: Binary32, max: Binary32, w: Binary32) -> bool {
    exists|d: Binary32| #[trigger] difference_of::<A>(v, max, d) && exp_of::<A>(d, w)
}

/// `weights` holds, for each of the first `visible` elements of `before`, an
/// exponential of its difference to the largest of them.
pub open spec fn softmax_weights_of<A: Arithmetic>(
    before: Seq<Binary32>,
    visible: int,
    weights: Seq<Binary32>,
) -> bool {
    &&& weights.len() == visible
    &&& forall|j: int|
        0 <= j < visible ==> shifted_exp_of::<A>(
            before[j],
            prefix_max(before, visible),
            #[trigger] weights[j],
        )
}

/// `after` holds, place by place, a quotient of the weight and `total`.
pub open spec fn quotients_of<A: Arithmetic>(
    weights: Seq<Binary32>,
    total: Binary32,
    after: Seq<Binary32>,
) -> bool {
    forall|j: int| 0 <= j < weights.len() ==> quotient_of::<A>(weights[j], total, #[trigger] after[j])
}

/// `after` is a softmax of the first `visible` elements of `before`, with
/// `+0.0` on every place behind them: each visible element is a quotient of
/// its weight and of the running sum of all the weights.
pub open spec fn masked_softmax_of<A: Arithmetic>(
    before: Seq<Binary32>,
    visible: int,
    after: Seq<Binary32>,
) -> bool {
    &&& after.len() == before.len()
    &&& forall|j: int| visible <= j < after.len() ==> #[trigger] after[j] == Binary32::spec_zero()
    &&& exists|weights: Seq<Binary32>, total: Binary32|
        softmax_weights_of::<A>(before, visible, weights) && #[trigger] running_sum_of::<A>(
            weights,
            total,
        ) && quotients_of::<A>(weights, total, after)
}

/// The number of key positions that query `i` of `query_len` sees among
/// `key_len` keys, the last `query_len` of which are the new ones.
pub open spec fn visible_keys(query_len: int, key_len: int, i: int) -> int {
    key_len - query_len + i + 1
}

/// Softmax over the first `visible` of the `width` elements from `offset`
/// on, `+0.0` on the others.
pub fn masked_softmax_row<A: Arithmetic>(
    y: &mut Tensor<Binary32>,
    offset: usize,
    width: usize,
    visible: usize,
)
    requires
        offset + width <= old(y)@.len(),
        1 <= visible <= width,
    ensures
        final(y).dims() == old(y).dims(),
        final(y)@.len() == old(y)@.len(),
        forall|k: int|
            0 <= k < offset || offset + width <= k < old(y)@.len() ==> #[trigger] final(y)@[k]
                == old(y)@[k],
        masked_softmax_of::<A>(
            old(y)@.subrange(offset as int, offset + width),
            visible as int,
            final(y)@.subrange(offset as int, offset + width),
        ),
{
    let ghost before = y@.subrange(offset as int, offset + width);
    let len: usize = y.size();
    let mut max: Binary32 = *y.get(offset);
    let mut j: usize = 1;
    while j < visible
        invariant
            1 <= j <= visible <= width,
            offset + width <= len,
            y@.len() == len,
            *y == *old(y),
            before == y@.subrange(offset as int, offset + width),
            max == prefix_max(before, j as int),
        decreases visible - j,
    {
        max = max.max(*y.get(offset + j));
        j += 1;
    }
    let ghost mut weights: Seq<Binary32> = Seq::empty();
    let ghost mut sums: Seq<Binary32> = seq![Binary32::spec_zero()];
    let mut sum: Binary32 = Binary32::zero();
    proof {
        lemma_partial_sums_empty::<A>();
    }
    j = 0;
    while j < visible
        invariant
            j <= visible <= width,
            offset + width <= len,
            y@.len() == len,
            y@.len() == old(y)@.len(),
            y.dims() == old(y).dims(),
            before == old(y)@.subrange(offset as int, offset + width),
            max == prefix_max(before, visible as int),
            forall|k: int| 0 <= k < offset || offset + j <= k < y@.len() ==> #[trigger] y@[k] == old(
                y,
            )@[k],
            weights.len() == j,
            forall|k: int| 0 <= k < j ==> #[trigger] y@[offset + k] == weights[k],
            forall|k: int|
                0 <= k < j ==> shifted_exp_of::<A>(before[k], max, #[trigger] weights[k]),
            partial_sums_of::<A>(weights, sums),
            sums.last() == sum,
        decreases visible - j,
    {
        let v: Binary32 = *y.get(offset + j);
        let d: Binary32 = A::sub(v, max);
        let e: Binary32 = A::exp(d);
        y.set(offset + j, e);
        let next: Binary32 = A::add(sum, e);
        proof {
            assert(v == before[j as int]);
            assert(difference_of::<A>(v, max, d));
            assert(shifted_exp_of::<A>(before[j as int], max, e));
            lemma_partial_sums_push::<A>(weights, sums, e, next);
            weights = weights.push(e);
            sums = sums.push(next);
        }
        sum = next;
        j += 1;
    }
    j = 0;
    while j < visible
        invariant
            j <= visible <= width,
            offset + width <= len,
            y@.len() == len,
            y@.len() == old(y)@.len(),
            y.dims() == old(y).dims(),
            weights.len() == visible,
            forall|k: int| 0 <= k < offset || offset + visible <= k < y@.len() ==> #[trigger] y@[k]
                == old(y)@[k],
            forall|k: int| j <= k < visible ==> #[trigger] y@[offset + k] == weights[k],
            forall|k: int|
                0 <= k < j ==> quotient_of::<A>(weights[k], sum, #[trigger] y@[offset + k]),
        decreases visible - j,
    {
        let e: Binary32 = *y.get(offset + j);
        let q: Binary32 = A::div(e, sum);
        let ghost prev = y@;
        y.set(offset + j, q);
        proof {
            assert forall|k: int| 0 <= k < j + 1 implies quotient_of::<A>(
                weights[k],
                sum,
                #[trigger] y@[offset + k],
            ) by {
                if k < j {
                    assert(y@[offset + k] == prev[offset + k]);
                }
            }
            assert forall|k: int| j + 1 <= k < visible implies #[trigger] y@[offset + k]
                == weights[k] by {
                assert(y@[offset + k] == prev[offset + k]);
            }
        }
        j += 1;
    }
    j = visible;
    while j < width
        invariant
            visible <= j <= width,
            offset + width <= len,
            y@.len() == len,
            y@.len() == old(y)@.len(),
            y.dims() == old(y).dims(),
            weights.len() == visible,
            forall|k: int| 0 <= k < offset || offset + j <= k < y@.len() ==> #[trigger] y@[k] == old(
                y,
            )@[k],
            forall|k: int|
                0 <= k < visible ==> quotient_of::<A>(weights[k], sum, #[trigger] y@[offset + k]),
            forall|k: int| visible <= k < j ==> #[trigger] y@[offset + k] == Binary32::spec_zero(),
        decreases width - j,
    {
        let ghost prev = y@;
        y.set(offset + j, Binary32::zero());
        proof {
            assert forall|k: int| 0 <= k < visible implies quotient_of::<A>(
                weights[k],
                sum,
                #[trigger] y@[offset + k],
            ) by {
                assert(y@[offset + k] == prev[offset + k]);
            }
            assert forall|k: int| visible <= k < j + 1 implies #[trigger] y@[offset + k]
                == Binary32::spec_zero() by {
                if k < j {
                    assert(y@[offset + k] == prev[offset + k]);
                }
            }
        }
        j += 1;
    }
    proof {
        let after = y@.subrange(offset as int, offset + width);
        assert(softmax_weights_of::<A>(before, visible as int, weights));
        assert(running_sum_of::<A>(weights, sum));
        assert forall|k: int| 0 <= k < weights.len() implies quotient_of::<A>(
            weights[k],
            sum,
            #[trigger] after[k],
        ) by {
            assert(after[k] == y@[offset + k]);
        }
        assert(quotients_of::<A>(weights, sum, after));
        assert forall|k: int| visible <= k < after.len() implies #[trigger] after[k]
            == Binary32::spec_zero() by {
            assert(after[k] == y@[offset + k]);
        }
    }
}

} // verus!
