//! A dense tensor: a shape and a flat row-major buffer.
use vstd::prelude::*;

verus! {

/// The number of elements that a shape describes: the product of its
/// dimensions, 1 for the empty shape.
pub open spec fn shape_size(shape: Seq<usize>) -> nat
    decreases shape.len(),
{
    if shape.len() == 0 {
        1
    } else {
        shape_size(shape.drop_last()) * (shape.last() as nat)
    }
}

/// Every dimension of the shape is at least 1.
pub open spec fn positive_dims(shape: Seq<usize>) -> bool {
    forall|i: int| 0 <= i < shape.len() ==> #[trigger] shape[i] > 0
}

/// A buffer of `len` elements can be read as a tensor of this shape.
pub open spec fn shape_fits(shape: Seq<usize>, len: nat) -> bool {
    positive_dims(shape) && shape_size(shape) == len
}

/// The elements `row * width .. (row + 1) * width` of a flat buffer.
pub open spec fn row<T>(s: Seq<T>, row: int, width: int) -> Seq<T> {
    s.subrange(row * width, (row + 1) * width)
}

/// The element in row `i` and column `j` of a flat buffer of rows of `cols`
/// elements.
pub open spec fn at<T>(s: Seq<T>, i: int, j: int, cols: int) -> T {
    s[i * cols + j]
}

/// A matrix has as many elements as rows times columns.
pub proof fn lemma_shape_size_2(shape: Seq<usize>)
    requires
        shape.len() == 2,
    ensures
        shape_size(shape) == shape[0] * shape[1],
{
    reveal_with_fuel(shape_size, 3);
    assert(shape.drop_last().drop_last().len() == 0);
    assert(shape_size(shape.drop_last()) == 1 * (shape[0] as nat));
}

/// A tensor of rank 3 has as many elements as the product of its three
/// dimensions.
pub proof fn lemma_shape_size_3(shape: Seq<usize>)
    requires
        shape.len() == 3,
    ensures
        shape_size(shape) == shape[0] * shape[1] * shape[2],
{
    lemma_shape_size_2(shape.drop_last());
}

/// The flat index of a cell lies in the buffer.
pub proof fn lemma_cell_index(i: int, j: int, rows: int, cols: int)
    requires
        0 <= i < rows,
        0 <= j < cols,
    ensures
        0 <= i * cols + j < rows * cols,
{
    lemma_row_bounds(i, rows, cols);
}

/// The cells of an earlier row lie before those of a later one.
pub proof fn lemma_cell_order(i: int, j: int, i2: int, j2: int, cols: int)
    requires
        0 <= i < i2,
        0 <= j < cols,
        0 <= j2,
    ensures
        i * cols + j < i2 * cols + j2,
{
    lemma_row_bounds(i, i2, cols);
}

/// Where row `r` of `rows` rows of width `width` begins and ends.
pub proof fn lemma_row_bounds(r: int, rows: int, width: int)
    by (nonlinear_arith)
    requires
        0 <= r < rows,
        0 <= width,
    ensures
        0 <= r * width,
        (r + 1) * width == r * width + width,
        (r + 1) * width <= rows * width,
{
}

/// A shape of positive dimensions describes at least one element, and no
/// fewer than any of its prefixes does.
pub proof fn lemma_shape_size_prefix(shape: Seq<usize>, n: int)
    requires
        positive_dims(shape),
        0 <= n <= shape.len(),
    ensures
        1 <= shape_size(shape.take(n)) <= shape_size(shape),
    decreases shape.len(),
{
    if shape.len() == 0 {
        assert(shape.take(n) =~= shape);
    } else if n == shape.len() {
        assert(shape.take(n) =~= shape);
        lemma_shape_size_prefix(shape.drop_last(), n - 1);
        assert(shape.last() > 0);
        let rest: int = shape_size(shape.drop_last()) as int;
        let last: int = shape.last() as int;
        assert(rest * last >= 1) by (nonlinear_arith)
            requires
                rest >= 1,
                last >= 1,
        ;
    } else {
        assert(shape.drop_last().take(n) =~= shape.take(n));
        lemma_shape_size_prefix(shape.drop_last(), n);
        assert(shape.last() > 0);
        let rest: int = shape_size(shape.drop_last()) as int;
        let last: int = shape.last() as int;
        assert(rest * last >= rest) by (nonlinear_arith)
            requires
                rest >= 1,
                last >= 1,
        ;
    }
}

/// Taking one more dimension multiplies the size by it.
pub proof fn lemma_shape_size_step(shape: Seq<usize>, n: int)
    requires
        0 <= n < shape.len(),
    ensures
        shape_size(shape.take(n + 1)) == shape_size(shape.take(n)) * (shape[n] as nat),
{
    assert(shape.take(n + 1).drop_last() =~= shape.take(n));
    assert(shape.take(n + 1).last() == shape[n]);
}

/// A dense tensor. Its buffer holds as many elements as its shape describes,
/// and no dimension is 0.
pub struct Tensor<T> {
    data: Vec<T>,
    shape: Vec<usize>,
}

impl<T> View for Tensor<T> {
    type V = Seq<T>;

    /// The elements, in row-major order.
    closed spec fn view(&self) -> Seq<T> {
        self.data@
    }
}

impl<T> Tensor<T> {
    #[verifier::type_invariant]
    spec fn well_formed(self) -> bool {
        shape_fits(self.shape@, self.data@.len())
    }

    /// The dimensions, outermost first.
    pub closed spec fn dims(self) -> Seq<usize> {
        self.shape@
    }

    /// A tensor of the given elements and shape, if the two fit.
    pub fn new(data: Vec<T>, shape: &Vec<usize>) -> (r: Option<Tensor<T>>)
        ensures
            r is Some <==> shape_fits(shape@, data@.len()),
            r matches Some(t) ==> t@ == data@ && t.dims() == shape@,
    {
        let rank: usize = shape.len();
        let len: usize = data.len();
        let mut dims: Vec<usize> = Vec::new();
        let mut size: usize = 1;
        let mut i: usize = 0;
        while i < rank
            invariant
                rank == shape.len(),
                len == data@.len(),
                i <= rank,
                dims@ == shape@.take(i as int),
                positive_dims(dims@),
                size == shape_size(shape@.take(i as int)),
            decreases rank - i,
        {
            let dim: usize = shape[i];
            if dim == 0 {
                return None;
            }
            proof {
                lemma_shape_size_step(shape@, i as int);
            }
            match size.checked_mul(dim) {
                Some(next) => {
                    size = next;
                },
                None => {
                    proof {
                        if positive_dims(shape@) {
                            lemma_shape_size_prefix(shape@, i + 1);
                            assert(shape_size(shape@) > len);
                        }
                    }
                    return None;
                },
            }
            dims.push(dim);
            assert(dims@ =~= shape@.take(i + 1));
            i += 1;
        }
        assert(shape@.take(rank as int) =~= shape@);
        if size != len {
            return None;
        }
        Some(Tensor { data, shape: dims })
    }

    /// The shape.
    pub fn shape(&self) -> (shape: &Vec<usize>)
        ensures
            shape@ == self.dims(),
            shape_fits(self.dims(), self@.len()),
    {
        proof {
            use_type_invariant(self);
        }
        &self.shape
    }

    /// The number of elements.
    pub fn size(&self) -> (n: usize)
        ensures
            n == self@.len(),
            n >= 1,
            shape_fits(self.dims(), self@.len()),
    {
        proof {
            use_type_invariant(self);
            lemma_shape_size_prefix(self.shape@, 0);
        }
        self.data.len()
    }

    /// The elements, in row-major order.
    pub fn data(&self) -> (data: &Vec<T>)
        ensures
            data@ == self@,
            shape_fits(self.dims(), self@.len()),
    {
        proof {
            use_type_invariant(self);
        }
        &self.data
    }

    /// The element at flat index `i`.
    pub fn get(&self, i: usize) -> (r: &T)
        requires
            i < self@.len(),
        ensures
            *r == self@[i as int],
    {
        &self.data[i]
    }

    /// Overwrites the element at flat index `i`.
    pub fn set(&mut self, i: usize, value: T)
        requires
            i < old(self)@.len(),
        ensures
            final(self)@ == old(self)@.update(i as int, value),
            final(self).dims() == old(self).dims(),
    {
        proof {
            use_type_invariant(&*self);
        }
        self.data[i] = value;
    }
}

} // verus!
