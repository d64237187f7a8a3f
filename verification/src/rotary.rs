//! The rotation of one vector by rotary positional embedding.
use vstd::prelude::*;
use crate::arithmetic::{
    converted_from, difference_of, power_of, product_of, quotient_of, sin_cos_of, sum_of,
    Arithmetic,
};
use crate::binary32::Binary32;
use crate::tensor::Tensor;

verus! {

/// `angle` is an angle of rotation for the pair `i` of a vector of `d`
/// elements at `position`: a quotient of the position and of a power of
/// `theta` to `2i / d`, each integer converted first.
pub open spec fn angle_of<A: Arithmetic>(
    position: usize,
    i: usize,
    d: usize,
    theta: Binary32,
    angle: Binary32,
) -> bool {
    exists|p: Binary32, n: Binary32, w: Binary32, e: Binary32, f: Binary32|
        converted_from::<A>(position, p) && converted_from::<A>((2 * i) as usize, n)
            && converted_from::<A>(d, w) && #[trigger] quotient_of::<A>(n, w, e)
            && #[trigger] power_of::<A>(theta, e, f) && #[trigger] quotient_of::<A>(p, f, angle)
}

/// `(a2, b2)` is the pair `(a, b)` rotated by `angle`:
/// `a2 = a * cos - b * sin` and `b2 = b * cos + a * sin`.
pub open spec fn rotation_of<A: Arithmetic>(
    a: Binary32,
    b: Binary32,
    angle: Binary32,
    a2: Binary32,
    b2: Binary32,
) -> bool {
    exists|sin: Binary32, cos: Binary32, ac: Binary32, bs: Binary32, bc: Binary32, sa: Binary32|
        #[trigger] sin_cos_of::<A>(angle, sin, cos) && product_of::<A>(a, cos, ac) && product_of::<A>(
            b,
            sin,
            bs,
        ) && #[trigger] difference_of::<A>(ac, bs, a2) && product_of::<A>(b, cos, bc)
            && product_of::<A>(a, sin, sa) && #[trigger] sum_of::<A>(bc, sa, b2)
}

/// In the vector of `d` elements that begins at `base`, the pair of the
/// elements `i` and `i + d / 2` of `after` is that pair of `before`, rotated
/// by an angle for pair `i` at `position`.
pub open spec fn rope_pair_done<A: Arithmetic>(
    before: Seq<Binary32>,
    after: Seq<Binary32>,
    base: int,
    d: usize,
    position: usize,
    theta: Binary32,
    i: int,
) -> bool {
    exists|angle: Binary32|
        #[trigger] angle_of::<A>(position, i as usize, d, theta, angle) && rotation_of::<A>(
            before[base + i],
            before[base + i + d / 2],
            angle,
            after[base + i],
            after[base + i + d / 2],
        )
}

/// The angle by which pair `i` of a vector of `d` elements turns at
/// `position`.
pub fn rope_angle<A: Arithmetic>(position: usize, i: usize, d: usize, theta: Binary32) -> (angle:
    Binary32)
    requires
        2 * i <= usize::MAX,
    ensures
        angle_of::<A>(position, i, d, theta, angle),
{
    let p: Binary32 = A::from_usize(position);
    let n: Binary32 = A::from_usize(i * 2);
    let w: Binary32 = A::from_usize(d);
    let e: Binary32 = A::div(n, w);
    let f: Binary32 = A::powf(theta, e);
    let angle: Binary32 = A::div(p, f);
    assert(quotient_of::<A>(n, w, e));
    assert(power_of::<A>(theta, e, f));
    assert(quotient_of::<A>(p, f, angle));
    angle
}

/// Rotates the pair `(a, b)` by `angle`.
pub fn rotate<A: Arithmetic>(a: Binary32, b: Binary32, angle: Binary32) -> (r: (Binary32, Binary32))
    ensures
        rotation_of::<A>(a, b, angle, r.0, r.1),
{
    let (sin, cos) = A::sin_cos(angle);
    let ac: Binary32 = A::mul(a, cos);
    let bs: Binary32 = A::mul(b, sin);
    let a2: Binary32 = A::sub(ac, bs);
    let bc: Binary32 = A::mul(b, cos);
    let sa: Binary32 = A::mul(a, sin);
    let b2: Binary32 = A::add(bc, sa);
    assert(sin_cos_of::<A>(angle, sin, cos));
    assert(difference_of::<A>(ac, bs, a2));
    assert(sum_of::<A>(bc, sa, b2));
    (a2, b2)
}

/// Rotates the vector of `d` elements that begins at `base`: element `i` of
/// its first half is paired with element `i` of its second half.
pub fn rope_vector<A: Arithmetic>(
    y: &mut Tensor<Binary32>,
    base: usize,
    d: usize,
    position: usize,
    theta: Binary32,
)
    requires
        base + d <= old(y)@.len(),
    ensures
        final(y).dims() == old(y).dims(),
        final(y)@.len() == old(y)@.len(),
        forall|k: int|
            0 <= k < base || base + 2 * (d / 2) <= k < old(y)@.len() ==> #[trigger] final(y)@[k]
                == old(y)@[k],
        forall|i: int|
            0 <= i < d / 2 ==> #[trigger] rope_pair_done::<A>(
                old(y)@,
                final(y)@,
                base as int,
                d,
                position,
                theta,
                i,
            ),
{
    let len: usize = y.size();
    let half: usize = d / 2;
    let mut i: usize = 0;
    while i < half
        invariant
            i <= half,
            half == d / 2,
            base + d <= len,
            y@.len() == len,
            len == old(y)@.len(),
            y.dims() == old(y).dims(),
            forall|k: int|
                0 <= k < base || base + i <= k < base + half || base + half + i <= k < len
                    ==> #[trigger] y@[k] == old(y)@[k],
            forall|i2: int|
                0 <= i2 < i ==> #[trigger] rope_pair_done::<A>(
                    old(y)@,
                    y@,
                    base as int,
                    d,
                    position,
                    theta,
                    i2,
                ),
        decreases half - i,
    {
        let a: Binary32 = *y.get(base + i);
        let b: Binary32 = *y.get(base + i + half);
        let angle: Binary32 = rope_angle::<A>(position, i, d, theta);
        let (a2, b2) = rotate::<A>(a, b, angle);
        let ghost prev = y@;
        y.set(base + i, a2);
        y.set(base + i + half, b2);
        proof {
            assert(a == old(y)@[base + i]);
            assert(b == old(y)@[base + i + d / 2]);
            assert(y@[base + i] == a2);
            assert(y@[base + i + d / 2] == b2);
            assert(angle_of::<A>(position, (i as int) as usize, d, theta, angle));
            assert(rotation_of::<A>(
                old(y)@[base + i],
                old(y)@[base + i + d / 2],
                angle,
                y@[base + i],
                y@[base + i + d / 2],
            ));
            assert(rope_pair_done::<A>(old(y)@, y@, base as int, d, position, theta, i as int));
            assert forall|i2: int| 0 <= i2 < i implies #[trigger] rope_pair_done::<A>(
                old(y)@,
                y@,
                base as int,
                d,
                position,
                theta,
                i2,
            ) by {
                assert(rope_pair_done::<A>(old(y)@, prev, base as int, d, position, theta, i2));
                assert(y@[base + i2] == prev[base + i2]);
                assert(y@[base + i2 + d / 2] == prev[base + i2 + d / 2]);
            }
        }
        i += 1;
    }
}

} // verus!
