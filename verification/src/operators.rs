//! The eight kernels. Each states which elements it reads and writes and,
//! through the relations of [`crate::arithmetic`], which operations it applies
//! to them in which order.
use vstd::prelude::*;
use crate::arithmetic::{
    converted_from, dot_of, exp_of, lemma_partial_sums_empty, lemma_partial_sums_push,
    partial_sums_of, product_of, products_of, quotient_of, running_sum_of, sqrt_of, sum_of,
    Arithmetic,
};
use crate::binary32::Binary32;
use crate::rotary::{rope_pair_done, rope_vector};
use crate::sampler::{
    argmax, is_greedy, is_greedy_choice, sample_with_draw, sampled, spec_is_greedy,
};
use crate::softmax::{masked_softmax_of, masked_softmax_row, visible_keys};
use crate::tensor::{
    at, lemma_cell_index, lemma_cell_order, lemma_row_bounds, lemma_shape_size_2,
    lemma_shape_size_3, lemma_shape_size_prefix, lemma_shape_size_step, row, shape_size, Tensor,
};

verus! {

/// Copies `width` elements of `source` from `from` on over those of `y` from
/// `to` on.
pub fn copy_row<T: Copy>(y: &mut Tensor<T>, to: usize, source: &Vec<T>, from: usize, width: usize)
    requires
        to + width <= old(y)@.len(),
        from + width <= source.len(),
    ensures
        final(y).dims() == old(y).dims(),
        final(y)@.len() == old(y)@.len(),
        forall|k: int|
            0 <= k < to || to + width <= k < old(y)@.len() ==> #[trigger] final(y)@[k] == old(
                y,
            )@[k],
        final(y)@.subrange(to as int, to + width) == source@.subrange(from as int, from + width),
{
    let len: usize = y.size();
    let mut j: usize = 0;
    while j < width
        invariant
            j <= width,
            to + width <= len,
            from + width <= source.len(),
            y@.len() == len,
            len == old(y)@.len(),
            y.dims() == old(y).dims(),
            forall|k: int| 0 <= k < to || to + j <= k < len ==> #[trigger] y@[k] == old(y)@[k],
            forall|k: int| 0 <= k < j ==> #[trigger] y@[to + k] == source@[from + k],
        decreases width - j,
    {
        let ghost prev = y@;
        y.set(to + j, source[from + j]);
        proof {
            assert forall|k: int| 0 <= k < j + 1 implies #[trigger] y@[to + k] == source@[from
                + k] by {
                if k < j {
                    assert(y@[to + k] == prev[to + k]);
                }
            }
        }
        j += 1;
    }
    proof {
        let copied = y@.subrange(to as int, to + width);
        let wanted = source@.subrange(from as int, from + width);
        assert forall|k: int| 0 <= k < width implies copied[k] == wanted[k] by {
            assert(copied[k] == y@[to + k]);
        }
        assert(copied =~= wanted);
    }
}

/// Row `i` of `y` is row `indices[i]` of `table`, for every `i`, where a
/// row holds `dim` elements.
pub open spec fn gathered<T>(indices: Seq<u32>, table: Seq<T>, dim: int, y: Seq<T>) -> bool {
    forall|i: int|
        0 <= i < indices.len() ==> #[trigger] row(y, i, dim) == row(table, indices[i] as int, dim)
}

/// Embedding lookup: row `i` of `y` becomes row `indices[i]` of `table`, for
/// every `i`. What `y` held before is not read.
pub fn gather<T: Copy>(y: &mut Tensor<T>, indices: &Tensor<u32>, table: &Tensor<T>)
    requires
        table.dims().len() == 2,
        old(y)@.len() == indices@.len() * table.dims()[1],
        forall|i: int| 0 <= i < indices@.len() ==> (#[trigger] indices@[i]) < table.dims()[0],
    ensures
        final(y).dims() == old(y).dims(),
        final(y)@.len() == old(y)@.len(),
        gathered(indices@, table@, table.dims()[1] as int, final(y)@),
{
    let length: usize = indices.size();
    let table_shape: &Vec<usize> = table.shape();
    let rows: usize = table_shape[0];
    let dim: usize = table_shape[1];
    let source: &Vec<T> = table.data();
    let source_len: usize = source.len();
    let len: usize = y.size();
    proof {
        lemma_shape_size_2(table.dims());
    }
    let mut i: usize = 0;
    while i < length
        invariant
            i <= length,
            length == indices@.len(),
            rows == table.dims()[0],
            dim == table.dims()[1],
            source@ == table@,
            source_len == source@.len(),
            source_len == rows * dim,
            y@.len() == len,
            len == old(y)@.len(),
            len == length * dim,
            y.dims() == old(y).dims(),
            forall|q: int| 0 <= q < indices@.len() ==> (#[trigger] indices@[q]) < rows,
            forall|q: int|
                0 <= q < i ==> #[trigger] row(y@, q, dim as int) == row(
                    table@,
                    indices@[q] as int,
                    dim as int,
                ),
        decreases length - i,
    {
        let index: usize = *indices.get(i) as usize;
        proof {
            lemma_row_bounds(i as int, length as int, dim as int);
            lemma_row_bounds(index as int, rows as int, dim as int);
        }
        let ghost prev = y@;
        copy_row(y, i * dim, source, index * dim, dim);
        proof {
            let width: int = dim as int;
            assert(y@.subrange(i * dim, i * dim + dim) =~= row(y@, i as int, width));
            assert(source@.subrange(index * dim, index * dim + dim) =~= row(
                table@,
                index as int,
                width,
            ));
            assert forall|q: int| 0 <= q < i implies #[trigger] row(y@, q, width) == row(
                table@,
                indices@[q] as int,
                width,
            ) by {
                lemma_row_bounds(q, i as int, width);
                assert(row(y@, q, width) =~= row(prev, q, width));
            }
        }
        i += 1;
    }
}

/// A dot product of `len` elements of `x` from `x_start` on and as many of
/// `y` from `y_start` on.
pub fn dot_range<A: Arithmetic>(
    x: &Vec<Binary32>,
    x_start: usize,
    y: &Vec<Binary32>,
    y_start: usize,
    len: usize,
) -> (r: Binary32)
    requires
        x_start + len <= x.len(),
        y_start + len <= y.len(),
    ensures
        dot_of::<A>(
            x@.subrange(x_start as int, x_start + len),
            y@.subrange(y_start as int, y_start + len),
            r,
        ),
{
    let ghost xs = x@.subrange(x_start as int, x_start + len);
    let ghost ys = y@.subrange(y_start as int, y_start + len);
    let ghost mut products: Seq<Binary32> = Seq::empty();
    let ghost mut sums: Seq<Binary32> = seq![Binary32::spec_zero()];
    let mut sum: Binary32 = Binary32::zero();
    let mut i: usize = 0;
    proof {
        lemma_partial_sums_empty::<A>();
    }
    while i < len
        invariant
            i <= len,
            x_start + len <= x.len(),
            y_start + len <= y.len(),
            xs == x@.subrange(x_start as int, x_start + len),
            ys == y@.subrange(y_start as int, y_start + len),
            products.len() == i,
            forall|j: int| 0 <= j < i ==> product_of::<A>(xs[j], ys[j], #[trigger] products[j]),
            partial_sums_of::<A>(products, sums),
            sums.last() == sum,
        decreases len - i,
    {
        let p: Binary32 = A::mul(x[x_start + i], y[y_start + i]);
        let next: Binary32 = A::add(sum, p);
        proof {
            assert(product_of::<A>(xs[i as int], ys[i as int], p));
            lemma_partial_sums_push::<A>(products, sums, p, next);
            products = products.push(p);
            sums = sums.push(next);
        }
        sum = next;
        i += 1;
    }
    proof {
        assert(products_of::<A>(xs, ys, products));
        assert(running_sum_of::<A>(products, sum));
    }
    sum
}

/// The dot product of two tensors of one size, read as flat vectors.
pub fn dot<A: Arithmetic>(x: &Tensor<Binary32>, y: &Tensor<Binary32>) -> (r: Binary32)
    requires
        x@.len() == y@.len(),
    ensures
        dot_of::<A>(x@, y@, r),
{
    let len: usize = x.size();
    assert(x@.subrange(0, len as int) =~= x@);
    assert(y@.subrange(0, len as int) =~= y@);
    dot_range::<A>(x.data(), 0, y.data(), 0, len)
}

/// `after` is `gate` times the SiLU of `x`: a product of `gate` and a
/// quotient of `x` and a sum of `+1.0` and an exponential of `-x`.
pub open spec fn silu_gated<A: Arithmetic>(gate: Binary32, x: Binary32, after: Binary32) -> bool {
    exists|e: Binary32, d: Binary32, s: Binary32|
        exp_of::<A>(x.spec_neg(), e) && #[trigger] sum_of::<A>(Binary32::spec_one(), e, d)
            && #[trigger] quotient_of::<A>(x, d, s) && product_of::<A>(gate, s, after)
}

/// `gate * silu(x)`.
pub fn silu_gate<A: Arithmetic>(gate: Binary32, x: Binary32) -> (after: Binary32)
    ensures
        silu_gated::<A>(gate, x, after),
{
    let e: Binary32 = A::exp(x.neg());
    let d: Binary32 = A::add(Binary32::one(), e);
    let s: Binary32 = A::div(x, d);
    let after: Binary32 = A::mul(gate, s);
    assert(sum_of::<A>(Binary32::spec_one(), e, d));
    assert(quotient_of::<A>(x, d, s));
    after
}

/// `after` holds, place by place, the element of `gates` times the SiLU of
/// the element of `x`.
pub open spec fn swiglu_of<A: Arithmetic>(
    gates: Seq<Binary32>,
    x: Seq<Binary32>,
    after: Seq<Binary32>,
) -> bool {
    &&& after.len() == gates.len()
    &&& forall|i: int| 0 <= i < x.len() ==> silu_gated::<A>(gates[i], x[i], #[trigger] after[i])
}

/// Multiplies every element of `y` by the SiLU of the element of `x` at the
/// same place.
pub fn swiglu<A: Arithmetic>(y: &mut Tensor<Binary32>, x: &Tensor<Binary32>)
    requires
        old(y)@.len() == x@.len(),
    ensures
        final(y).dims() == old(y).dims(),
        swiglu_of::<A>(old(y)@, x@, final(y)@),
{
    let len: usize = y.size();
    let mut i: usize = 0;
    while i < len
        invariant
            i <= len,
            len == x@.len(),
            y@.len() == len,
            y.dims() == old(y).dims(),
            forall|j: int| 0 <= j < i ==> silu_gated::<A>(old(y)@[j], x@[j], #[trigger] y@[j]),
            forall|j: int| i <= j < len ==> y@[j] == old(y)@[j],
        decreases len - i,
    {
        let after: Binary32 = silu_gate::<A>(*y.get(i), *x.get(i));
        y.set(i, after);
        i += 1;
    }
}

/// The pair `i` of the vector of head `head` of token `tok` is rotated for
/// the position `start_pos + tok`. The vector begins at
/// `(tok * n_heads + head) * d`.
pub open spec fn rope_cell_done<A: Arithmetic>(
    before: Seq<Binary32>,
    after: Seq<Binary32>,
    start_pos: usize,
    theta: Binary32,
    n_heads: usize,
    d: usize,
    tok: int,
    head: int,
    i: int,
) -> bool {
    rope_pair_done::<A>(
        before,
        after,
        (tok * n_heads + head) * d,
        d,
        (start_pos + tok) as usize,
        theta,
        i,
    )
}

/// `after` is `before` with every pair of every head of every token
/// rotated, for a tensor of the shape `dims` = (tokens, heads, head
/// dimension).
pub open spec fn rope_of<A: Arithmetic>(
    before: Seq<Binary32>,
    after: Seq<Binary32>,
    start_pos: usize,
    theta: Binary32,
    dims: Seq<usize>,
) -> bool {
    &&& after.len() == before.len()
    &&& forall|tok: int, head: int, i: int|
        0 <= tok < dims[0] && 0 <= head < dims[1] && 0 <= i < dims[2] / 2
            ==> #[trigger] rope_cell_done::<A>(
            before,
            after,
            start_pos,
            theta,
            dims[1],
            dims[2],
            tok,
            head,
            i,
        )
}

/// Rotary positional embedding, in place, of a tensor of the shape (tokens,
/// heads, head dimension). Token `tok` stands at position `start_pos + tok`;
/// in each of its heads, element `i` of the first half of the vector and
/// element `i` of the second half are rotated as a pair.
pub fn rope<A: Arithmetic>(y: &mut Tensor<Binary32>, start_pos: usize, theta: Binary32)
    requires
        old(y).dims().len() == 3,
        old(y).dims()[2] % 2 == 0,
        start_pos + old(y).dims()[0] <= usize::MAX,
    ensures
        final(y).dims() == old(y).dims(),
        rope_of::<A>(old(y)@, final(y)@, start_pos, theta, old(y).dims()),
{
    let len: usize = y.size();
    let shape: &Vec<usize> = y.shape();
    let seq_len: usize = shape[0];
    let n_heads: usize = shape[1];
    let d: usize = shape[2];
    proof {
        lemma_shape_size_3(y.dims());
        assert(d > 0);
        assert(seq_len * n_heads * d >= seq_len * n_heads) by (nonlinear_arith)
            requires
                d >= 1,
        ;
    }
    let mut tok: usize = 0;
    while tok < seq_len
        invariant
            tok <= seq_len,
            start_pos + seq_len <= usize::MAX,
            d > 0,
            seq_len * n_heads <= len,
            len == seq_len * n_heads * d,
            y@.len() == len,
            len == old(y)@.len(),
            y.dims() == old(y).dims(),
            forall|k: int| tok * n_heads * d <= k < len ==> #[trigger] y@[k] == old(y)@[k],
            forall|tok2: int, head2: int, i2: int|
                0 <= tok2 < tok && 0 <= head2 < n_heads && 0 <= i2 < d / 2
                    ==> #[trigger] rope_cell_done::<A>(
                    old(y)@,
                    y@,
                    start_pos,
                    theta,
                    n_heads,
                    d,
                    tok2,
                    head2,
                    i2,
                ),
        decreases seq_len - tok,
    {
        let pos: usize = start_pos + tok;
        let mut head: usize = 0;
        while head < n_heads
            invariant
                tok < seq_len,
                head <= n_heads,
                pos == start_pos + tok,
                d > 0,
                seq_len * n_heads <= len,
                len == seq_len * n_heads * d,
                y@.len() == len,
                len == old(y)@.len(),
                y.dims() == old(y).dims(),
                forall|k: int|
                    (tok * n_heads + head) * d <= k < len ==> #[trigger] y@[k] == old(y)@[k],
                forall|tok2: int, head2: int, i2: int|
                    0 <= tok2 < tok && 0 <= head2 < n_heads && 0 <= i2 < d / 2
                        ==> #[trigger] rope_cell_done::<A>(
                        old(y)@,
                        y@,
                        start_pos,
                        theta,
                        n_heads,
                        d,
                        tok2,
                        head2,
                        i2,
                    ),
                forall|head2: int, i2: int|
                    0 <= head2 < head && 0 <= i2 < d / 2 ==> #[trigger] rope_cell_done::<A>(
                        old(y)@,
                        y@,
                        start_pos,
                        theta,
                        n_heads,
                        d,
                        tok as int,
                        head2,
                        i2,
                    ),
            decreases n_heads - head,
        {
            proof {
                lemma_cell_index(tok as int, head as int, seq_len as int, n_heads as int);
                lemma_row_bounds(
                    tok * n_heads + head,
                    seq_len * n_heads,
                    d as int,
                );
            }
            let v: usize = tok * n_heads + head;
            let base: usize = v * d;
            let ghost prev = y@;
            rope_vector::<A>(y, base, d, pos, theta);
            proof {
                assert forall|i2: int| 0 <= i2 < d / 2 implies #[trigger] rope_cell_done::<A>(
                    old(y)@,
                    y@,
                    start_pos,
                    theta,
                    n_heads,
                    d,
                    tok as int,
                    head as int,
                    i2,
                ) by {
                    assert(rope_pair_done::<A>(prev, y@, base as int, d, pos, theta, i2));
                    assert(prev[base + i2] == old(y)@[base + i2]);
                    assert(prev[base + i2 + d / 2] == old(y)@[base + i2 + d / 2]);
                }
                assert forall|head2: int, i2: int|
                    0 <= head2 < head + 1 && 0 <= i2 < d / 2 implies #[trigger] rope_cell_done::<A>(
                    old(y)@,
                    y@,
                    start_pos,
                    theta,
                    n_heads,
                    d,
                    tok as int,
                    head2,
                    i2,
                ) by {
                    if head2 < head {
                        let base2: int = (tok * n_heads + head2) * d;
                        lemma_row_bounds(tok * n_heads + head2, v as int, d as int);
                        assert(rope_cell_done::<A>(
                            old(y)@,
                            prev,
                            start_pos,
                            theta,
                            n_heads,
                            d,
                            tok as int,
                            head2,
                            i2,
                        ));
                        assert(y@[base2 + i2] == prev[base2 + i2]);
                        assert(y@[base2 + i2 + d / 2] == prev[base2 + i2 + d / 2]);
                    }
                }
                assert forall|tok2: int, head2: int, i2: int|
                    0 <= tok2 < tok && 0 <= head2 < n_heads && 0 <= i2 < d / 2
                        implies #[trigger] rope_cell_done::<A>(
                    old(y)@,
                    y@,
                    start_pos,
                    theta,
                    n_heads,
                    d,
                    tok2,
                    head2,
                    i2,
                ) by {
                    let base2: int = (tok2 * n_heads + head2) * d;
                    lemma_cell_order(tok2, head2, tok as int, head as int, n_heads as int);
                    lemma_cell_index(tok2, head2, tok as int, n_heads as int);
                    lemma_row_bounds(tok2 * n_heads + head2, v as int, d as int);
                    assert(rope_cell_done::<A>(
                        old(y)@,
                        prev,
                        start_pos,
                        theta,
                        n_heads,
                        d,
                        tok2,
                        head2,
                        i2,
                    ));
                    assert(y@[base2 + i2] == prev[base2 + i2]);
                    assert(y@[base2 + i2 + d / 2] == prev[base2 + i2 + d / 2]);
                }
            }
            head += 1;
        }
        proof {
            assert((tok * n_heads + n_heads) * d == (tok + 1) * n_heads * d) by (nonlinear_arith);
        }
        tok += 1;
    }
}

/// The number of queries: the last dimension but one.
pub open spec fn query_len(dims: Seq<usize>) -> int {
    dims[dims.len() - 2] as int
}

/// The number of keys: the last dimension.
pub open spec fn key_len(dims: Seq<usize>) -> int {
    dims.last() as int
}

/// Every row of `keys` elements of `after` is the masked softmax of that row
/// of `before`; row `r` belongs to query `r % queries` and shows as many
/// keys as that query sees.
pub open spec fn causal_softmax_of<A: Arithmetic>(
    before: Seq<Binary32>,
    after: Seq<Binary32>,
    queries: int,
    keys: int,
) -> bool {
    &&& after.len() == before.len()
    &&& forall|r: int|
        0 <= r < (before.len() as int) / keys ==> #[trigger] masked_softmax_of::<A>(
            row(before, r, keys),
            visible_keys(queries, keys, r % queries),
            row(after, r, keys),
        )
}

/// Causally masked softmax over the rows of `y`.
///
/// The last two dimensions of `y` are the number of queries and the number
/// of keys; what stands before them counts batches. The buffer is a run of
/// rows with one number for each key; row `r` belongs to query
/// `r % queries`, which sees the first `keys - queries + r % queries + 1`
/// keys. Each row becomes the softmax of what its query sees, with `+0.0`
/// behind.
pub fn masked_softmax<A: Arithmetic>(y: &mut Tensor<Binary32>)
    requires
        old(y).dims().len() >= 2,
        query_len(old(y).dims()) <= key_len(old(y).dims()),
    ensures
        final(y).dims() == old(y).dims(),
        causal_softmax_of::<A>(
            old(y)@,
            final(y)@,
            query_len(old(y).dims()),
            key_len(old(y).dims()),
        ),
{
    let len: usize = y.size();
    let shape: &Vec<usize> = y.shape();
    let ndim: usize = shape.len();
    let seq_len: usize = shape[ndim - 2];
    let total_seq_len: usize = shape[ndim - 1];
    assert(seq_len > 0 && total_seq_len > 0);
    let rows: usize = len / total_seq_len;
    proof {
        let dims = y.dims();
        lemma_shape_size_step(dims, ndim - 1);
        assert(dims.take(ndim as int) =~= dims);
        lemma_shape_size_prefix(dims, ndim - 1);
        let outer: int = shape_size(dims.take(ndim - 1)) as int;
        let width: int = total_seq_len as int;
        assert(len == outer * width);
        assert((outer * width) / width == outer) by (nonlinear_arith)
            requires
                width > 0,
        ;
        assert(rows * width == len);
    }
    let mut r: usize = 0;
    while r < rows
        invariant
            r <= rows,
            rows * total_seq_len == len,
            len == old(y)@.len(),
            y@.len() == len,
            y.dims() == old(y).dims(),
            0 < seq_len <= total_seq_len,
            seq_len == query_len(old(y).dims()),
            total_seq_len == key_len(old(y).dims()),
            forall|k: int| r * total_seq_len <= k < len ==> #[trigger] y@[k] == old(y)@[k],
            forall|q: int|
                0 <= q < r ==> #[trigger] masked_softmax_of::<A>(
                    row(old(y)@, q, total_seq_len as int),
                    visible_keys(seq_len as int, total_seq_len as int, q % (seq_len as int)),
                    row(y@, q, total_seq_len as int),
                ),
        decreases rows - r,
    {
        proof {
            lemma_row_bounds(r as int, rows as int, total_seq_len as int);
        }
        let i: usize = r % seq_len;
        let offset: usize = r * total_seq_len;
        let visible: usize = total_seq_len - seq_len + i + 1;
        let ghost prev = y@;
        masked_softmax_row::<A>(y, offset, total_seq_len, visible);
        proof {
            let width: int = total_seq_len as int;
            assert(prev.subrange(offset as int, offset + width) =~= row(old(y)@, r as int, width));
            assert(y@.subrange(offset as int, offset + width) =~= row(y@, r as int, width));
            assert forall|q: int| 0 <= q < r implies #[trigger] masked_softmax_of::<A>(
                row(old(y)@, q, width),
                visible_keys(seq_len as int, width, q % (seq_len as int)),
                row(y@, q, width),
            ) by {
                lemma_row_bounds(q, r as int, width);
                assert(row(y@, q, width) =~= row(prev, q, width));
            }
        }
        r += 1;
    }
}

/// `after` is `beta * before + alpha * (xs . ys)`: a sum of a product of
/// `beta` and `before` and of a product of `alpha` and a dot product of `xs`
/// and `ys`.
pub open spec fn matmul_cell_of<A: Arithmetic>(
    before: Binary32,
    beta: Binary32,
    xs: Seq<Binary32>,
    ys: Seq<Binary32>,
    alpha: Binary32,
    after: Binary32,
) -> bool {
    exists|s: Binary32, t: Binary32, u: Binary32|
        dot_of::<A>(xs, ys, s) && #[trigger] product_of::<A>(beta, before, t)
            && #[trigger] product_of::<A>(alpha, s, u) && sum_of::<A>(t, u, after)
}

/// Cell `(i, j)` of `after` is `beta` times that cell of `before` plus
/// `alpha` times the dot product of row `i` of `a` and row `j` of `b`, where
/// the rows of `a` and `b` hold `k` elements and those of the result `n`.
pub open spec fn matmul_cell_done<A: Arithmetic>(
    before: Seq<Binary32>,
    after: Seq<Binary32>,
    beta: Binary32,
    a: Seq<Binary32>,
    b: Seq<Binary32>,
    alpha: Binary32,
    n: int,
    k: int,
    i: int,
    j: int,
) -> bool {
    matmul_cell_of::<A>(at(before, i, j, n), beta, row(a, i, k), row(b, j, k), alpha, at(after, i, j, n))
}

/// Every cell of the `m` rows and `n` columns of `after` is done.
pub open spec fn matmul_transb_of<A: Arithmetic>(
    before: Seq<Binary32>,
    after: Seq<Binary32>,
    beta: Binary32,
    a: Seq<Binary32>,
    b: Seq<Binary32>,
    alpha: Binary32,
    m: int,
    n: int,
    k: int,
) -> bool {
    &&& after.len() == before.len()
    &&& forall|i: int, j: int|
        0 <= i < m && 0 <= j < n ==> #[trigger] matmul_cell_done::<A>(
            before,
            after,
            beta,
            a,
            b,
            alpha,
            n,
            k,
            i,
            j,
        )
}

/// `C = beta * C + alpha * A * B^T`, for `A` of `m` rows and `k` columns,
/// `B` of `n` rows and `k` columns and `C` of `m` rows and `n` columns.
///
/// `beta * C` is computed for every cell, also where `beta` is zero: what
/// the provider makes of zero times a NaN or an infinity is what the cell
/// gets.
pub fn matmul_transb<A: Arithmetic>(
    c: &mut Tensor<Binary32>,
    beta: Binary32,
    a: &Tensor<Binary32>,
    b: &Tensor<Binary32>,
    alpha: Binary32,
)
    requires
        old(c).dims().len() == 2,
        a.dims().len() == 2,
        b.dims().len() == 2,
        old(c).dims()[0] == a.dims()[0],
        old(c).dims()[1] == b.dims()[0],
        a.dims()[1] == b.dims()[1],
    ensures
        final(c).dims() == old(c).dims(),
        matmul_transb_of::<A>(
            old(c)@,
            final(c)@,
            beta,
            a@,
            b@,
            alpha,
            a.dims()[0] as int,
            b.dims()[0] as int,
            a.dims()[1] as int,
        ),
{
    let c_len: usize = c.size();
    let c_shape: &Vec<usize> = c.shape();
    let m: usize = c_shape[0];
    let n: usize = c_shape[1];
    let k: usize = a.shape()[1];
    let a_data: &Vec<Binary32> = a.data();
    let b_data: &Vec<Binary32> = b.data();
    let a_len: usize = a_data.len();
    let b_len: usize = b_data.len();
    proof {
        lemma_shape_size_2(c.dims());
        lemma_shape_size_2(a.dims());
        lemma_shape_size_2(b.dims());
    }
    let mut i: usize = 0;
    while i < m
        invariant
            i <= m,
            c@.len() == c_len,
            c_len == old(c)@.len(),
            c_len == m * n,
            a_data@ == a@,
            b_data@ == b@,
            a_len == m * k,
            b_len == n * k,
            a@.len() == a_len,
            b@.len() == b_len,
            c.dims() == old(c).dims(),
            forall|idx: int| i * n <= idx < c_len ==> #[trigger] c@[idx] == old(c)@[idx],
            forall|i2: int, j2: int|
                0 <= i2 < i && 0 <= j2 < n ==> #[trigger] matmul_cell_done::<A>(
                    old(c)@,
                    c@,
                    beta,
                    a@,
                    b@,
                    alpha,
                    n as int,
                    k as int,
                    i2,
                    j2,
                ),
        decreases m - i,
    {
        proof {
            lemma_row_bounds(i as int, m as int, n as int);
            lemma_row_bounds(i as int, m as int, k as int);
        }
        let mut j: usize = 0;
        while j < n
            invariant
                i < m,
                j <= n,
                c@.len() == c_len,
                c_len == old(c)@.len(),
                c_len == m * n,
                (i + 1) * n <= m * n,
                (i + 1) * n == i * n + n,
                (i + 1) * k <= m * k,
                (i + 1) * k == i * k + k,
                0 <= i * n,
                0 <= i * k,
                a_data@ == a@,
                b_data@ == b@,
                a_len == m * k,
                b_len == n * k,
                a@.len() == a_len,
                b@.len() == b_len,
                c.dims() == old(c).dims(),
                forall|idx: int| i * n + j <= idx < c_len ==> #[trigger] c@[idx] == old(c)@[idx],
                forall|i2: int, j2: int|
                    0 <= i2 < i && 0 <= j2 < n ==> #[trigger] matmul_cell_done::<A>(
                        old(c)@,
                        c@,
                        beta,
                        a@,
                        b@,
                        alpha,
                        n as int,
                        k as int,
                        i2,
                        j2,
                    ),
                forall|j2: int|
                    0 <= j2 < j ==> #[trigger] matmul_cell_done::<A>(
                        old(c)@,
                        c@,
                        beta,
                        a@,
                        b@,
                        alpha,
                        n as int,
                        k as int,
                        i as int,
                        j2,
                    ),
            decreases n - j,
        {
            proof {
                lemma_row_bounds(j as int, n as int, k as int);
            }
            let s: Binary32 = dot_range::<A>(a_data, i * k, b_data, j * k, k);
            let before: Binary32 = *c.get(i * n + j);
            let t: Binary32 = A::mul(beta, before);
            let u: Binary32 = A::mul(alpha, s);
            let after: Binary32 = A::add(t, u);
            let ghost prev = c@;
            c.set(i * n + j, after);
            proof {
                assert(a@.subrange(i * k, i * k + k) =~= row(a@, i as int, k as int));
                assert(b@.subrange(j * k, j * k + k) =~= row(b@, j as int, k as int));
                assert(product_of::<A>(beta, before, t));
                assert(product_of::<A>(alpha, s, u));
                assert(matmul_cell_done::<A>(
                    old(c)@,
                    c@,
                    beta,
                    a@,
                    b@,
                    alpha,
                    n as int,
                    k as int,
                    i as int,
                    j as int,
                ));
                assert forall|i2: int, j2: int| 0 <= i2 < i && 0 <= j2 < n implies #[trigger] matmul_cell_done::<
                    A,
                >(old(c)@, c@, beta, a@, b@, alpha, n as int, k as int, i2, j2) by {
                    lemma_cell_order(i2, j2, i as int, j as int, n as int);
                    lemma_cell_index(i2, j2, i as int, n as int);
                    assert(at(c@, i2, j2, n as int) == at(prev, i2, j2, n as int));
                    assert(matmul_cell_done::<A>(
                        old(c)@,
                        prev,
                        beta,
                        a@,
                        b@,
                        alpha,
                        n as int,
                        k as int,
                        i2,
                        j2,
                    ));
                }
                assert forall|j2: int| 0 <= j2 < j + 1 implies #[trigger] matmul_cell_done::<A>(
                    old(c)@,
                    c@,
                    beta,
                    a@,
                    b@,
                    alpha,
                    n as int,
                    k as int,
                    i as int,
                    j2,
                ) by {
                    if j2 < j {
                        assert(at(c@, i as int, j2, n as int) == at(prev, i as int, j2, n as int));
                        assert(matmul_cell_done::<A>(
                            old(c)@,
                            prev,
                            beta,
                            a@,
                            b@,
                            alpha,
                            n as int,
                            k as int,
                            i as int,
                            j2,
                        ));
                    }
                }
            }
            j += 1;
        }
        i += 1;
    }
}

/// `rms` is a root mean square of `xs`, with `epsilon` under the root: a
/// square root of a sum of `epsilon` and of a quotient of the dot product of
/// `xs` with itself and of the converted number of elements.
pub open spec fn rms_of<A: Arithmetic>(xs: Seq<Binary32>, epsilon: Binary32, rms: Binary32) -> bool {
    exists|s: Binary32, n: Binary32, m: Binary32, e: Binary32|
        dot_of::<A>(xs, xs, s) && converted_from::<A>(xs.len() as usize, n)
            && #[trigger] quotient_of::<A>(s, n, m) && #[trigger] sum_of::<A>(m, epsilon, e)
            && sqrt_of::<A>(e, rms)
}

/// `y` is `w * x / rms`: a quotient of a product of `w` and `x` and of `rms`.
pub open spec fn scaled_of<A: Arithmetic>(w: Binary32, x: Binary32, rms: Binary32, y: Binary32) -> bool {
    exists|p: Binary32| #[trigger] product_of::<A>(w, x, p) && quotient_of::<A>(p, rms, y)
}

/// `y` holds, place by place, `w * x / rms` for one `rms`.
pub open spec fn all_scaled_of<A: Arithmetic>(
    w: Seq<Binary32>,
    x: Seq<Binary32>,
    rms: Binary32,
    y: Seq<Binary32>,
) -> bool {
    forall|i: int| 0 <= i < x.len() ==> scaled_of::<A>(w[i], x[i], rms, #[trigger] y[i])
}

/// `y` is `x` normalised by its root mean square and scaled by `w`: one
/// root mean square is taken over all of `x`, and every element is scaled
/// with it.
pub open spec fn rms_norm_of<A: Arithmetic>(
    x: Seq<Binary32>,
    w: Seq<Binary32>,
    epsilon: Binary32,
    y: Seq<Binary32>,
) -> bool {
    &&& y.len() == x.len()
    &&& exists|rms: Binary32| #[trigger]
        rms_of::<A>(x, epsilon, rms) && all_scaled_of::<A>(w, x, rms, y)
}

/// RMS normalisation: `y[i] = w[i] * x[i] / sqrt(mean(x^2) + epsilon)`, the
/// mean taken over the whole of `x`. What `y` held before is not read.
pub fn rms_norm<A: Arithmetic>(
    y: &mut Tensor<Binary32>,
    x: &Tensor<Binary32>,
    w: &Tensor<Binary32>,
    epsilon: Binary32,
)
    requires
        old(y)@.len() == x@.len(),
        old(y)@.len() == w@.len(),
    ensures
        final(y).dims() == old(y).dims(),
        rms_norm_of::<A>(x@, w@, epsilon, final(y)@),
{
    let len: usize = y.size();
    let x_data: &Vec<Binary32> = x.data();
    let w_data: &Vec<Binary32> = w.data();
    assert(x@.subrange(0, len as int) =~= x@);
    let s: Binary32 = dot_range::<A>(x_data, 0, x_data, 0, len);
    let n: Binary32 = A::from_usize(len);
    let m: Binary32 = A::div(s, n);
    let e: Binary32 = A::add(m, epsilon);
    let rms: Binary32 = A::sqrt(e);
    proof {
        assert(quotient_of::<A>(s, n, m));
        assert(sum_of::<A>(m, epsilon, e));
        assert(rms_of::<A>(x@, epsilon, rms));
    }
    let mut i: usize = 0;
    while i < len
        invariant
            i <= len,
            x_data@ == x@,
            w_data@ == w@,
            len == x@.len(),
            len == w@.len(),
            y@.len() == len,
            y.dims() == old(y).dims(),
            forall|j: int| 0 <= j < i ==> scaled_of::<A>(w@[j], x@[j], rms, #[trigger] y@[j]),
        decreases len - i,
    {
        let p: Binary32 = A::mul(w_data[i], x_data[i]);
        let q: Binary32 = A::div(p, rms);
        y.set(i, q);
        proof {
            assert(product_of::<A>(w@[i as int], x@[i as int], p));
        }
        i += 1;
    }
    proof {
        assert(all_scaled_of::<A>(w@, x@, rms, y@));
    }
}

/// `r` is an outcome of picking a token from the logits `x`: the greedy
/// choice where sampling is switched off, else a token sampled with a draw
/// that `uniform` returned.
pub open spec fn random_sample_of<A: Arithmetic, F: FnOnce() -> Binary32>(
    x: Seq<Binary32>,
    top_p: Binary32,
    top_k: u32,
    temperature: Binary32,
    uniform: F,
    r: Option<u32>,
) -> bool {
    if spec_is_greedy(top_p, top_k, temperature) {
        is_greedy_choice(x, r)
    } else {
        exists|draw: Binary32|
            uniform.ensures((), draw) && #[trigger] sampled::<A>(
                x,
                top_p,
                top_k,
                temperature,
                draw,
                r,
            )
    }
}

/// Picks a token from the logits `x`.
///
/// Where sampling is switched off (`temperature <= 0`, `top_k < 2` or
/// `top_p <= 0`) the first index of the largest logit is taken and `uniform`
/// is not called. Otherwise `uniform` is called once, for a number in
/// `[0, 1)`, and the token is sampled with that draw. The result is `None`
/// where the greedy choice meets a NaN among two or more logits, and where
/// no cumulative weight is at least the threshold.
pub fn random_sample<A: Arithmetic, F: FnOnce() -> Binary32>(
    x: &Tensor<Binary32>,
    top_p: Binary32,
    top_k: u32,
    temperature: Binary32,
    uniform: F,
) -> (r: Option<u32>)
    requires
        x.dims().len() >= 1,
        x.dims().last() == x@.len(),
        x@.len() <= u32::MAX,
        uniform.requires(()),
    ensures
        random_sample_of::<A, F>(x@, top_p, top_k, temperature, uniform, r),
        temperature.spec_le(Binary32::spec_zero()) ==> is_greedy_choice(x@, r),
{
    let n: usize = x.size();
    if is_greedy(top_p, top_k, temperature) {
        argmax(x.data())
    } else {
        let draw: Binary32 = uniform();
        sample_with_draw::<A>(x.data(), top_p, top_k, temperature, draw)
    }
}

} // verus!
