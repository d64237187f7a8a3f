//! The steps of the token sampler: the greedy choice, the ranking of the
//! logits, the table of cumulative weights, the threshold and the selection.
use vstd::prelude::*;
use crate::arithmetic::{
    difference_of, exp_of, product_of, quotient_of, sum_of, Arithmetic,
};
use crate::binary32::{Binary32, SIGN_BIT};

verus! {

/// Sampling is switched off: the most probable token is taken.
pub open spec fn spec_is_greedy(top_p: Binary32, top_k: u32, temperature: Binary32) -> bool {
    temperature.spec_le(Binary32::spec_zero()) || top_k < 2 || top_p.spec_le(Binary32::spec_zero())
}

/// Some logit is a NaN.
pub open spec fn has_nan(x: Seq<Binary32>) -> bool {
    exists|i: int| 0 <= i < x.len() && #[trigger] x[i].spec_is_nan()
}

/// `i` is the first index of the largest logit: no logit exceeds `x[i]`, and
/// every logit before it is less.
pub open spec fn is_first_maximum(x: Seq<Binary32>, i: int) -> bool {
    &&& 0 <= i < x.len()
    &&& forall|j: int| 0 <= j < x.len() ==> !x[i].spec_lt(#[trigger] x[j])
    &&& forall|j: int| 0 <= j < i ==> (#[trigger] x[j]).spec_lt(x[i])
}

/// Token `s` comes before token `t` in the ranking: its logit stands higher
/// in the total order, or the two logits are the same pattern and `s < t`.
pub open spec fn ranks_before(x: Seq<Binary32>, s: int, t: int) -> bool {
    x[s].total_order() > x[t].total_order() || (x[s].total_order() == x[t].total_order() && s < t)
}

/// Token `t` stands somewhere in `order`.
pub open spec fn lists(order: Seq<u32>, t: int) -> bool {
    exists|p: int| 0 <= p < order.len() && #[trigger] order[p] == t
}

/// `order` lists every token once, each before those that it ranks before.
pub open spec fn is_ranking(x: Seq<Binary32>, order: Seq<u32>) -> bool {
    &&& order.len() == x.len()
    &&& forall|p: int| 0 <= p < order.len() ==> #[trigger] order[p] < x.len()
    &&& forall|t: int| 0 <= t < x.len() ==> #[trigger] lists(order, t)
    &&& forall|p: int, q: int|
        0 <= p < q < order.len() ==> ranks_before(x, #[trigger] order[p] as int, #[trigger] order[q] as int)
}

/// `w` is a weight of the logit `v` next to the largest logit `max`: an
/// exponential of `(v - max) / temperature`.
pub open spec fn weight_of<A: Arithmetic>(
    v: Binary32,
    max: Binary32,
    temperature: Binary32,
    w: Binary32,
) -> bool {
    exists|d: Binary32, s: Binary32|
        difference_of::<A>(v, max, d) && #[trigger] quotient_of::<A>(d, temperature, s) && exp_of::<A>(
            s,
            w,
        )
}

/// The entry of `cum` at position `p` is a sum of the entry before it and a
/// weight of the token at position `p`.
pub open spec fn is_cumulative_step<A: Arithmetic>(
    x: Seq<Binary32>,
    order: Seq<u32>,
    temperature: Binary32,
    cum: Seq<Binary32>,
    p: int,
) -> bool {
    exists|w: Binary32|
        #[trigger] weight_of::<A>(x[order[p] as int], x[order[0] as int], temperature, w)
            && sum_of::<A>(cum[p - 1], w, cum[p])
}

/// `cum` is a table of cumulative weights along the ranking `order`: `+1.0`
/// for the first token, and for each later one a sum of the entry before
/// and the token's weight.
pub open spec fn cumulative_of<A: Arithmetic>(
    x: Seq<Binary32>,
    order: Seq<u32>,
    temperature: Binary32,
    cum: Seq<Binary32>,
) -> bool {
    &&& cum.len() == order.len()
    &&& cum.len() > 0 ==> cum[0] == Binary32::spec_one()
    &&& forall|p: int|
        1 <= p < cum.len() ==> #[trigger] is_cumulative_step::<A>(x, order, temperature, cum, p)
}

/// The last position of the ranking that belongs to the `top_k` best.
pub open spec fn top_k_position(top_k: u32, len: nat) -> int {
    if top_k < len {
        top_k - 1
    } else {
        len - 1
    }
}

/// `limit` is a threshold for the table `cum`: a product of the draw and the
/// smaller of the mass of the `top_k` best and a `top_p` share of the whole
/// mass.
pub open spec fn threshold_of<A: Arithmetic>(
    cum: Seq<Binary32>,
    top_p: Binary32,
    top_k: u32,
    draw: Binary32,
    limit: Binary32,
) -> bool {
    exists|share: Binary32|
        #[trigger] product_of::<A>(cum.last(), top_p, share) && product_of::<A>(
            draw,
            cum[top_k_position(top_k, cum.len())].spec_min(share),
            limit,
        )
}

/// The cumulative weight at position `p` is at least `limit`.
pub open spec fn reaches(cum: Seq<Binary32>, limit: Binary32, p: int) -> bool {
    0 <= p < cum.len() && cum[p].spec_ge(limit)
}

/// `p` is the first position whose cumulative weight is at least `limit`.
pub open spec fn is_first_reaching(cum: Seq<Binary32>, limit: Binary32, p: int) -> bool {
    reaches(cum, limit, p) && forall|q: int| 0 <= q < p ==> !#[trigger] reaches(cum, limit, q)
}

/// `r` is the token at the first position of the ranking whose cumulative
/// weight is at least `limit`, or nothing where no position is.
pub open spec fn is_selection(
    order: Seq<u32>,
    cum: Seq<Binary32>,
    limit: Binary32,
    r: Option<u32>,
) -> bool {
    match r {
        Some(token) => exists|p: int| #[trigger]
            is_first_reaching(cum, limit, p) && order[p] == token,
        None => forall|p: int| !#[trigger] reaches(cum, limit, p),
    }
}

/// `r` is an outcome of sampling from the logits `x` with the given draw:
/// rank the logits, build the table of cumulative weights, set the
/// threshold, select.
pub open spec fn sampled<A: Arithmetic>(
    x: Seq<Binary32>,
    top_p: Binary32,
    top_k: u32,
    temperature: Binary32,
    draw: Binary32,
    r: Option<u32>,
) -> bool {
    exists|order: Seq<u32>, cum: Seq<Binary32>, limit: Binary32|
        is_ranking(x, order) && cumulative_of::<A>(x, order, temperature, cum)
            && #[trigger] threshold_of::<A>(cum, top_p, top_k, draw, limit) && #[trigger] is_selection(
            order,
            cum,
            limit,
            r,
        )
}

/// The greedy choice among the logits `x`: the first index of the largest
/// logit. There is none where `x` is empty, and none where a NaN stands
/// among two or more logits.
pub open spec fn is_greedy_choice(x: Seq<Binary32>, r: Option<u32>) -> bool {
    &&& r is Some <==> x.len() == 1 || (x.len() > 1 && !has_nan(x))
    &&& r matches Some(token) ==> is_first_maximum(x, token as int)
}

/// Whether sampling is switched off.
#[verifier::when_used_as_spec(spec_is_greedy)]
pub fn is_greedy(top_p: Binary32, top_k: u32, temperature: Binary32) -> (r: bool)
    ensures
        r == spec_is_greedy(top_p, top_k, temperature),
{
    temperature.le(Binary32::zero()) || top_k < 2 || top_p.le(Binary32::zero())
}

/// The first index of the largest logit.
pub fn argmax(x: &Vec<Binary32>) -> (r: Option<u32>)
    requires
        x.len() <= u32::MAX,
    ensures
        is_greedy_choice(x@, r),
{
    let n: usize = x.len();
    if n == 0 {
        return None;
    }
    if n == 1 {
        return Some(0);
    }
    if x[0].is_nan() {
        return None;
    }
    let mut best: usize = 0;
    let mut i: usize = 1;
    while i < n
        invariant
            n == x.len(),
            1 <= i <= n,
            best < i,
            forall|j: int| 0 <= j < i ==> !(#[trigger] x[j]).spec_is_nan(),
            forall|j: int| 0 <= j < i ==> (#[trigger] x[j]).spec_le(x[best as int]),
            forall|j: int| 0 <= j < best ==> (#[trigger] x[j]).spec_lt(x[best as int]),
        decreases n - i,
    {
        if x[i].is_nan() {
            return None;
        }
        if x[i].gt(x[best]) {
            best = i;
        }
        i += 1;
    }
    Some(best as u32)
}

/// The sort key of a logit: the higher the logit stands in the total order,
/// the smaller the key.
pub open spec fn falling_key(v: Binary32) -> int {
    SIGN_BIT - 1 - v.total_order()
}

/// The pair by which token `t` is sorted: the falling key of its logit, then
/// the token.
pub open spec fn sort_pair(x: Seq<Binary32>, t: int) -> (u32, u32) {
    (falling_key(x[t]) as u32, t as u32)
}

/// `pair` is the pair by which some token of `x` is sorted.
pub open spec fn is_sort_pair(x: Seq<Binary32>, pair: (u32, u32)) -> bool {
    exists|t: int| 0 <= t < x.len() && #[trigger] sort_pair(x, t) == pair
}

/// `a` does not come after `b`, first by the first component, then by the
/// second.
pub open spec fn pair_at_most(a: (u32, u32), b: (u32, u32)) -> bool {
    a.0 < b.0 || (a.0 == b.0 && a.1 <= b.1)
}

/// `<[(u32, u32)]>::sort_unstable`, through `Vec`'s deref. The contract
/// claims that afterwards the vector holds the same pairs as before, each as
/// often as before, in ascending order, where tuples of integers are ordered
/// by their first component and then by their second.
#[verifier::external_body]
fn sort_pairs(pairs: &mut Vec<(u32, u32)>)
    ensures
        final(pairs)@.to_multiset() == old(pairs)@.to_multiset(),
        forall|i: int, j: int|
            0 <= i < j < final(pairs)@.len() ==> pair_at_most(
                #[trigger] final(pairs)@[i],
                #[trigger] final(pairs)@[j],
            ),
{
    pairs.sort_unstable();
}

/// The tokens by descending logit in the total order, a lower token first
/// among equal logits.
pub fn rank(x: &Vec<Binary32>) -> (order: Vec<u32>)
    requires
        x.len() <= u32::MAX,
    ensures
        is_ranking(x@, order@),
{
    let n: usize = x.len();
    let mut pairs: Vec<(u32, u32)> = Vec::new();
    let mut i: usize = 0;
    while i < n
        invariant
            n == x.len(),
            n <= u32::MAX,
            i <= n,
            pairs.len() == i,
            forall|t: int| 0 <= t < i ==> #[trigger] pairs[t] == sort_pair(x@, t),
        decreases n - i,
    {
        let key: u32 = u32::MAX - x[i].total_key();
        pairs.push((key, i as u32));
        i += 1;
    }
    let ghost unsorted = pairs@;
    sort_pairs(&mut pairs);
    let ghost sorted = pairs@;
    proof {
        unsorted.to_multiset_ensures();
        sorted.to_multiset_ensures();
        assert(sorted.to_multiset() == unsorted.to_multiset());
        assert(unsorted.no_duplicates());
        unsorted.lemma_multiset_has_no_duplicates();
        sorted.lemma_multiset_has_no_duplicates_conv();
        assert(sorted.len() == n);
        assert forall|p: int| 0 <= p < n implies is_sort_pair(x@, #[trigger] sorted[p]) by {
            assert(sorted.contains(sorted[p]));
            assert(sorted.to_multiset().count(sorted[p]) > 0);
            assert(unsorted.to_multiset().count(sorted[p]) > 0);
            assert(unsorted.contains(sorted[p]));
            let t = choose|t: int| 0 <= t < unsorted.len() && unsorted[t] == sorted[p];
            assert(sort_pair(x@, t) == sorted[p]);
        }
    }
    let mut order: Vec<u32> = Vec::new();
    let mut p: usize = 0;
    while p < n
        invariant
            n == x.len(),
            n <= u32::MAX,
            p <= n,
            pairs@ == sorted,
            sorted.len() == n,
            unsorted.len() == n,
            sorted.no_duplicates(),
            sorted.to_multiset() == unsorted.to_multiset(),
            forall|t: int| 0 <= t < n ==> #[trigger] unsorted[t] == sort_pair(x@, t),
            forall|i: int, j: int|
                0 <= i < j < n ==> pair_at_most(#[trigger] sorted[i], #[trigger] sorted[j]),
            forall|q: int| 0 <= q < n ==> is_sort_pair(x@, #[trigger] sorted[q]),
            order.len() == p,
            forall|q: int| 0 <= q < p ==> #[trigger] order[q] == sorted[q].1,
        decreases n - p,
    {
        order.push(pairs[p].1);
        p += 1;
    }
    proof {
        unsorted.to_multiset_ensures();
        sorted.to_multiset_ensures();
        assert forall|q: int| 0 <= q < n implies #[trigger] order[q] < n && sorted[q] == sort_pair(
            x@,
            order[q] as int,
        ) by {
            assert(is_sort_pair(x@, sorted[q]));
            let t = choose|t: int| 0 <= t < n && #[trigger] sort_pair(x@, t) == sorted[q];
            assert(order[q] == t);
        }
        assert forall|t: int| 0 <= t < n implies #[trigger] lists(order@, t) by {
            assert(unsorted[t] == sort_pair(x@, t));
            assert(unsorted.contains(sort_pair(x@, t)));
            assert(unsorted.to_multiset().count(sort_pair(x@, t)) > 0);
            assert(sorted.to_multiset().count(sort_pair(x@, t)) > 0);
            assert(sorted.contains(sort_pair(x@, t)));
            let q = choose|q: int| 0 <= q < sorted.len() && sorted[q] == sort_pair(x@, t);
            assert(order[q] == t);
        }
        assert forall|q1: int, q2: int| 0 <= q1 < q2 < order.len() implies ranks_before(
            x@,
            #[trigger] order[q1] as int,
            #[trigger] order[q2] as int,
        ) by {
            assert(pair_at_most(sorted[q1], sorted[q2]));
            assert(sorted[q1] != sorted[q2]);
            assert(sorted[q1] == sort_pair(x@, order[q1] as int));
            assert(sorted[q2] == sort_pair(x@, order[q2] as int));
        }
    }
    order
}

/// The table of cumulative weights along a ranking.
pub fn cumulate<A: Arithmetic>(x: &Vec<Binary32>, order: &Vec<u32>, temperature: Binary32) -> (cum:
    Vec<Binary32>)
    requires
        forall|p: int| 0 <= p < order.len() ==> #[trigger] order[p] < x.len(),
    ensures
        cumulative_of::<A>(x@, order@, temperature, cum@),
{
    let n: usize = order.len();
    let mut cum: Vec<Binary32> = Vec::new();
    if n == 0 {
        return cum;
    }
    let max: Binary32 = x[order[0] as usize];
    cum.push(Binary32::one());
    let mut p: usize = 1;
    while p < n
        invariant
            n == order.len(),
            1 <= p <= n,
            cum.len() == p,
            max == x[order[0] as int],
            forall|q: int| 0 <= q < order.len() ==> #[trigger] order[q] < x.len(),
            cum[0] == Binary32::spec_one(),
            forall|q: int|
                1 <= q < p ==> #[trigger] is_cumulative_step::<A>(x@, order@, temperature, cum@, q),
        decreases n - p,
    {
        let v: Binary32 = x[order[p] as usize];
        let d: Binary32 = A::sub(v, max);
        let s: Binary32 = A::div(d, temperature);
        let w: Binary32 = A::exp(s);
        let c: Binary32 = A::add(cum[p - 1], w);
        let ghost before = cum@;
        cum.push(c);
        proof {
            assert(quotient_of::<A>(d, temperature, s));
            assert(weight_of::<A>(x[order[p as int] as int], x[order[0] as int], temperature, w));
            assert forall|q: int| 1 <= q < p + 1 implies #[trigger] is_cumulative_step::<A>(
                x@,
                order@,
                temperature,
                cum@,
                q,
            ) by {
                if q < p {
                    assert(is_cumulative_step::<A>(x@, order@, temperature, before, q));
                    assert(before[q - 1] == cum[q - 1] && before[q] == cum[q]);
                }
            }
        }
        p += 1;
    }
    cum
}

/// The threshold that a draw sets for a table of cumulative weights.
pub fn threshold<A: Arithmetic>(
    cum: &Vec<Binary32>,
    top_p: Binary32,
    top_k: u32,
    draw: Binary32,
) -> (limit: Binary32)
    requires
        cum.len() >= 1,
        top_k >= 1,
    ensures
        threshold_of::<A>(cum@, top_p, top_k, draw, limit),
{
    let n: usize = cum.len();
    let k: usize = if (top_k as usize) < n {
        top_k as usize - 1
    } else {
        n - 1
    };
    let mass: Binary32 = cum[k];
    let share: Binary32 = A::mul(cum[n - 1], top_p);
    let limit: Binary32 = A::mul(draw, mass.min(share));
    assert(product_of::<A>(cum@.last(), top_p, share));
    limit
}

/// The token at the first position whose cumulative weight is at least
/// `limit`.
pub fn select(order: &Vec<u32>, cum: &Vec<Binary32>, limit: Binary32) -> (r: Option<u32>)
    requires
        order.len() == cum.len(),
    ensures
        is_selection(order@, cum@, limit, r),
{
    let n: usize = cum.len();
    let mut p: usize = 0;
    while p < n
        invariant
            n == cum.len(),
            n == order.len(),
            p <= n,
            forall|q: int| 0 <= q < p ==> !#[trigger] reaches(cum@, limit, q),
        decreases n - p,
    {
        if cum[p].ge(limit) {
            assert(is_first_reaching(cum@, limit, p as int));
            return Some(order[p]);
        }
        p += 1;
    }
    None
}

/// Samples a token from the logits `x` with the given draw.
pub fn sample_with_draw<A: Arithmetic>(
    x: &Vec<Binary32>,
    top_p: Binary32,
    top_k: u32,
    temperature: Binary32,
    draw: Binary32,
) -> (r: Option<u32>)
    requires
        1 <= x.len() <= u32::MAX,
        top_k >= 1,
    ensures
        sampled::<A>(x@, top_p, top_k, temperature, draw, r),
{
    let order: Vec<u32> = rank(x);
    let cum: Vec<Binary32> = cumulate::<A>(x, &order, temperature);
    let limit: Binary32 = threshold::<A>(&cum, top_p, top_k, draw);
    let r: Option<u32> = select(&order, &cum, limit);
    assert(threshold_of::<A>(cum@, top_p, top_k, draw, limit));
    assert(is_selection(order@, cum@, limit, r));
    r
}

/// There is one first maximum at most.
pub proof fn lemma_first_maximum_unique(x: Seq<Binary32>, i: int, j: int)
    requires
        is_first_maximum(x, i),
        is_first_maximum(x, j),
    ensures
        i == j,
{
    if i < j {
        assert(x[i].spec_lt(x[j]));
    } else if j < i {
        assert(x[j].spec_lt(x[i]));
    }
}

/// The logits have one greedy choice only.
pub proof fn lemma_greedy_choice_unique(x: Seq<Binary32>, first: Option<u32>, second: Option<u32>)
    requires
        is_greedy_choice(x, first),
        is_greedy_choice(x, second),
    ensures
        first == second,
{
    if first is Some {
        lemma_first_maximum_unique(x, first->0 as int, second->0 as int);
    }
}

/// A table of cumulative weights and a threshold have one selection only.
pub proof fn lemma_selection_unique(
    order: Seq<u32>,
    cum: Seq<Binary32>,
    limit: Binary32,
    first: Option<u32>,
    second: Option<u32>,
)
    requires
        is_selection(order, cum, limit, first),
        is_selection(order, cum, limit, second),
    ensures
        first == second,
{
    if first is Some {
        let p = choose|p: int| #[trigger] is_first_reaching(cum, limit, p) && order[p] == first->0;
        assert(reaches(cum, limit, p));
        assert(second is Some);
        let q = choose|q: int| #[trigger]
            is_first_reaching(cum, limit, q) && order[q] == second->0;
        if p < q {
            assert(!reaches(cum, limit, p));
        } else if q < p {
            assert(!reaches(cum, limit, q));
        }
    } else if second is Some {
        let q = choose|q: int| #[trigger]
            is_first_reaching(cum, limit, q) && order[q] == second->0;
        assert(reaches(cum, limit, q));
    }
}

/// Where no logit is a NaN, the first maximum is at least every logit.
pub proof fn lemma_first_maximum_bounds(x: Seq<Binary32>, i: int, j: int)
    requires
        is_first_maximum(x, i),
        !has_nan(x),
        0 <= j < x.len(),
    ensures
        x[j].spec_le(x[i]),
{
    assert(!x[i].spec_lt(x[j]));
    assert(!x[i].spec_is_nan());
    assert(!x[j].spec_is_nan());
}

proof fn lemma_rankings_agree(x: Seq<Binary32>, first: Seq<u32>, second: Seq<u32>, n: int)
    requires
        is_ranking(x, first),
        is_ranking(x, second),
        0 <= n <= x.len(),
    ensures
        forall|j: int| 0 <= j < n ==> first[j] == second[j],
    decreases n,
{
    if n > 0 {
        lemma_rankings_agree(x, first, second, n - 1);
        let p = n - 1;
        let t = first[p] as int;
        let u = second[p] as int;
        assert(lists(second, t));
        let q = choose|q: int| 0 <= q < second.len() && #[trigger] second[q] == t;
        assert(lists(first, u));
        let q2 = choose|q2: int| 0 <= q2 < first.len() && #[trigger] first[q2] == u;
        if q < p {
            assert(first[q] == second[q]);
            assert(ranks_before(x, first[q] as int, first[p] as int));
        } else if q2 < p {
            assert(first[q2] == second[q2]);
            assert(ranks_before(x, second[q2] as int, second[p] as int));
        } else if q > p {
            assert(ranks_before(x, second[p] as int, second[q] as int));
            if q2 > p {
                assert(ranks_before(x, first[p] as int, first[q2] as int));
            }
        }
    }
}

/// The logits have one ranking only.
pub proof fn lemma_ranking_unique(x: Seq<Binary32>, first: Seq<u32>, second: Seq<u32>)
    requires
        is_ranking(x, first),
        is_ranking(x, second),
    ensures
        first == second,
{
    lemma_rankings_agree(x, first, second, x.len() as int);
    assert(first =~= second);
}

/// The first token of a ranking has a logit that no other exceeds in the
/// total order.
pub proof fn lemma_ranking_starts_at_top(x: Seq<Binary32>, order: Seq<u32>, t: int)
    requires
        is_ranking(x, order),
        0 <= t < x.len(),
    ensures
        x[t].total_order() <= x[order[0] as int].total_order(),
{
    assert(lists(order, t));
    let p = choose|p: int| 0 <= p < order.len() && #[trigger] order[p] == t;
    if p > 0 {
        assert(ranks_before(x, order[0] as int, order[p] as int));
    }
}

/// A selection never lies behind a position that reaches the threshold: if
/// the cumulative weight at position `q` is at least `limit`, a token is
/// selected, and it is one of the first `q + 1` of the ranking. With `q` the
/// last position of the `top_k` best, the token is one of those; with `q`
/// the end of the nucleus, it lies in the nucleus.
pub proof fn lemma_selection_is_capped(
    order: Seq<u32>,
    cum: Seq<Binary32>,
    limit: Binary32,
    r: Option<u32>,
    q: int,
)
    requires
        is_selection(order, cum, limit, r),
        reaches(cum, limit, q),
    ensures
        r is Some,
        exists|p: int| 0 <= p <= q && #[trigger] order[p] == r->0,
{
    let p = choose|p: int| #[trigger] is_first_reaching(cum, limit, p) && order[p] == r->0;
    if p > q {
        assert(!reaches(cum, limit, q));
    }
    assert(order[p] == r->0);
}

/// Where the threshold is no larger than the smaller of the two masses that
/// it is a product of (as it is when the draw lies in `[0, 1)` and the
/// product is rounded as IEEE 754 asks), the sampled token is one of the
/// `top_k` best.
pub proof fn lemma_sample_within_top_k(
    order: Seq<u32>,
    cum: Seq<Binary32>,
    top_k: u32,
    share: Binary32,
    limit: Binary32,
    r: Option<u32>,
)
    requires
        cum.len() >= 1,
        top_k >= 1,
        is_selection(order, cum, limit, r),
        !cum[top_k_position(top_k, cum.len())].spec_is_nan(),
        limit.spec_le(cum[top_k_position(top_k, cum.len())].spec_min(share)),
    ensures
        r is Some,
        exists|p: int| 0 <= p <= top_k_position(top_k, cum.len()) && #[trigger] order[p] == r->0,
{
    let last = top_k_position(top_k, cum.len());
    assert(reaches(cum, limit, last));
    lemma_selection_is_capped(order, cum, limit, r, last);
}

/// Where the threshold is no larger than the smaller of the two masses that
/// it is a product of, the sampled token lies in every prefix of the ranking
/// whose cumulative weight is at least the `top_p` share of the whole: it
/// lies in the nucleus.
pub proof fn lemma_sample_within_nucleus(
    order: Seq<u32>,
    cum: Seq<Binary32>,
    top_k: u32,
    share: Binary32,
    limit: Binary32,
    r: Option<u32>,
    q: int,
)
    requires
        cum.len() >= 1,
        top_k >= 1,
        is_selection(order, cum, limit, r),
        limit.spec_le(cum[top_k_position(top_k, cum.len())].spec_min(share)),
        reaches(cum, share, q),
    ensures
        r is Some,
        exists|p: int| 0 <= p <= q && #[trigger] order[p] == r->0,
{
    assert(reaches(cum, limit, q));
    lemma_selection_is_capped(order, cum, limit, r, q);
}

} // verus!
