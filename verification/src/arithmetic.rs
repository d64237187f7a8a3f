//! The rounding operations that the kernels need, and how contracts speak of
//! their results.
//!
//! Nothing is assumed of a provider: an operation may round as it likes, and
//! may even answer differently when asked twice. A contract therefore never
//! says what a sum *is*; it says that a value `r` *is a sum of* `a` and `b`,
//! meaning that the provider's `add` returned `r` for `(a, b)`.
use vstd::prelude::*;
use crate::binary32::Binary32;

verus! {

/// The operations on binary32 numbers that round.
pub trait Arithmetic {
    /// `a + b`.
    fn add(a: Binary32, b: Binary32) -> Binary32;

    /// `a - b`.
    fn sub(a: Binary32, b: Binary32) -> Binary32;

    /// `a * b`.
    fn mul(a: Binary32, b: Binary32) -> Binary32;

    /// `a / b`.
    fn div(a: Binary32, b: Binary32) -> Binary32;

    /// `e` raised to `a`.
    fn exp(a: Binary32) -> Binary32;

    /// The square root of `a`.
    fn sqrt(a: Binary32) -> Binary32;

    /// `base` raised to `exponent`.
    fn powf(base: Binary32, exponent: Binary32) -> Binary32;

    /// The sine and the cosine of `a`, in this order.
    fn sin_cos(a: Binary32) -> (Binary32, Binary32);

    /// The number nearest to the integer `n`.
    fn from_usize(n: usize) -> Binary32;
}

/// `r` is a sum `a + b`.
pub open spec fn sum_of<A: Arithmetic>(a: Binary32, b: Binary32, r: Binary32) -> bool {
    call_ensures(A::add, (a, b), r)
}

/// `r` is a difference `a - b`.
pub open spec fn difference_of<A: Arithmetic>(a: Binary32, b: Binary32, r: Binary32) -> bool {
    call_ensures(A::sub, (a, b), r)
}

/// `r` is a product `a * b`.
pub open spec fn product_of<A: Arithmetic>(a: Binary32, b: Binary32, r: Binary32) -> bool {
    call_ensures(A::mul, (a, b), r)
}

/// `r` is a quotient `a / b`.
pub open spec fn quotient_of<A: Arithmetic>(a: Binary32, b: Binary32, r: Binary32) -> bool {
    call_ensures(A::div, (a, b), r)
}

/// `r` is an exponential of `a`.
pub open spec fn exp_of<A: Arithmetic>(a: Binary32, r: Binary32) -> bool {
    call_ensures(A::exp, (a,), r)
}

/// `r` is a square root of `a`.
pub open spec fn sqrt_of<A: Arithmetic>(a: Binary32, r: Binary32) -> bool {
    call_ensures(A::sqrt, (a,), r)
}

/// `r` is a power of `base` to `exponent`.
pub open spec fn power_of<A: Arithmetic>(base: Binary32, exponent: Binary32, r: Binary32) -> bool {
    call_ensures(A::powf, (base, exponent), r)
}

/// `(sin, cos)` is a sine and cosine of `a`.
pub open spec fn sin_cos_of<A: Arithmetic>(a: Binary32, sin: Binary32, cos: Binary32) -> bool {
    call_ensures(A::sin_cos, (a,), (sin, cos))
}

/// `r` is a conversion of the integer `n`.
pub open spec fn converted_from<A: Arithmetic>(n: usize, r: Binary32) -> bool {
    call_ensures(A::from_usize, (n,), r)
}

/// `products` holds, place by place, a product of the elements of `xs` and
/// `ys`.
pub open spec fn products_of<A: Arithmetic>(
    xs: Seq<Binary32>,
    ys: Seq<Binary32>,
    products: Seq<Binary32>,
) -> bool {
    &&& xs.len() == ys.len()
    &&& products.len() == xs.len()
    &&& forall|i: int|
        0 <= i < xs.len() ==> product_of::<A>(xs[i], ys[i], #[trigger] products[i])
}

/// `sums` are the partial sums of `terms`: `+0.0` first, then what is left
/// after each term in turn was added to the sum before it.
pub open spec fn partial_sums_of<A: Arithmetic>(terms: Seq<Binary32>, sums: Seq<Binary32>) -> bool {
    &&& sums.len() == terms.len() + 1
    &&& sums[0] == Binary32::spec_zero()
    &&& forall|i: int|
        0 <= i < terms.len() ==> sum_of::<A>(sums[i], #[trigger] terms[i], sums[i + 1])
}

/// `total` is what is left after the `terms` were added to `+0.0` one by
/// one, first to last.
pub open spec fn running_sum_of<A: Arithmetic>(terms: Seq<Binary32>, total: Binary32) -> bool {
    exists|sums: Seq<Binary32>| #[trigger] partial_sums_of::<A>(terms, sums) && sums.last() == total
}

/// `r` is a dot product of `xs` and `ys`: the products of the pairs, added
/// to `+0.0` one by one, first to last.
pub open spec fn dot_of<A: Arithmetic>(xs: Seq<Binary32>, ys: Seq<Binary32>, r: Binary32) -> bool {
    exists|products: Seq<Binary32>|
        #[trigger] products_of::<A>(xs, ys, products) && running_sum_of::<A>(products, r)
}

/// The partial sums of no terms.
pub proof fn lemma_partial_sums_empty<A: Arithmetic>()
    ensures
        partial_sums_of::<A>(Seq::empty(), seq![Binary32::spec_zero()]),
{
}

/// One more term on the partial sums.
pub proof fn lemma_partial_sums_push<A: Arithmetic>(
    terms: Seq<Binary32>,
    sums: Seq<Binary32>,
    term: Binary32,
    total: Binary32,
)
    requires
        partial_sums_of::<A>(terms, sums),
        sum_of::<A>(sums.last(), term, total),
    ensures
        partial_sums_of::<A>(terms.push(term), sums.push(total)),
{
    let terms2 = terms.push(term);
    let sums2 = sums.push(total);
    assert forall|i: int| 0 <= i < terms2.len() implies sum_of::<A>(
        sums2[i],
        #[trigger] terms2[i],
        sums2[i + 1],
    ) by {
        if i < terms.len() {
            assert(sum_of::<A>(sums[i], terms[i], sums[i + 1]));
        }
    }
}

} // verus!
