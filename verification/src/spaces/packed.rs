//! Vectors packed into one-dimensional `ndarray` arrays, for the batched
//! similarity path.

use vstd::prelude::*;
use crate::spaces::arithmetic::dot_product;
use crate::types::{VectorElementType, MAX_DIMENSION};

verus! {

/// A one-dimensional `ndarray` array of 64-bit integers.
#[verifier::external_body]
pub struct PackedArray {
    inner: ndarray::Array1<i64>,
}

/// The elements a one-dimensional array holds, in index order.
pub uninterp spec fn packed_elements(array: PackedArray) -> Seq<i64>;

/// Whether every element fits a vector coordinate.
pub open spec fn fits_coordinates(elements: Seq<i64>) -> bool {
    forall|i: int| 0 <= i < elements.len() ==> -32768 <= #[trigger] elements[i] <= 32767
}

/// The elements as vector coordinates.
pub open spec fn narrowed(elements: Seq<i64>) -> Seq<VectorElementType> {
    Seq::new(elements.len(), |i: int| elements[i] as VectorElementType)
}

/// `ndarray::Array1::from_vec`: the array holds exactly the elements of the
/// vector it was made from, in the same order. The length must fit `isize`.
#[verifier::external_body]
fn array_from_vec(values: Vec<i64>) -> (array: PackedArray)
    requires
        values@.len() <= isize::MAX,
    ensures
        packed_elements(array) == values@,
{
    PackedArray { inner: ndarray::Array1::from_vec(values) }
}

/// `ndarray::ArrayBase::len`: the number of elements of the array.
#[verifier::external_body]
fn array_len(array: &PackedArray) -> (len: usize)
    ensures
        len == packed_elements(*array).len(),
{
    array.inner.len()
}

/// Indexing of a one-dimensional `ndarray` array: the element at `index`.
/// The index must lie within the array.
#[verifier::external_body]
fn array_get(array: &PackedArray, index: usize) -> (element: i64)
    requires
        index < packed_elements(*array).len(),
    ensures
        element == packed_elements(*array)[index as int],
{
    array.inner[index]
}

/// `ndarray::ArrayBase::dot` on two one-dimensional arrays: the sum of the
/// element-wise products. The arrays must have the same length; the bounds on
/// the elements and on the length keep every partial sum within `i64`.
#[verifier::external_body]
fn array_dot(left: &PackedArray, right: &PackedArray) -> (sum: i64)
    requires
        packed_elements(*left).len() == packed_elements(*right).len(),
        packed_elements(*left).len() <= MAX_DIMENSION,
        fits_coordinates(packed_elements(*left)),
        fits_coordinates(packed_elements(*right)),
    ensures
        sum == dot_product(narrowed(packed_elements(*left)), narrowed(packed_elements(*right))),
{
    left.inner.dot(&right.inner)
}

/// A vector in packed form. It holds the same coordinates as the slice it was
/// packed from, widened so that sums of products fit the element type.
pub struct PackedVector {
    data: PackedArray,
}

impl View for PackedVector {
    type V = Seq<VectorElementType>;

    closed spec fn view(&self) -> Seq<VectorElementType> {
        narrowed(packed_elements(self.data))
    }
}

impl PackedVector {
    #[verifier::type_invariant]
    closed spec fn coordinates_fit(self) -> bool {
        fits_coordinates(packed_elements(self.data))
    }

    /// Packs the coordinates of `vector`.
    pub fn pack(vector: &[VectorElementType]) -> (packed: PackedVector)
        requires
            vector@.len() <= MAX_DIMENSION,
        ensures
            packed@ == vector@,
    {
        let mut wide: Vec<i64> = Vec::new();
        let mut i: usize = 0;
        while i < vector.len()
            invariant
                i <= vector@.len(),
                wide@.len() == i,
                forall|j: int| 0 <= j < i ==> #[trigger] wide@[j] == vector@[j] as i64,
            decreases vector@.len() - i,
        {
            wide.push(vector[i] as i64);
            i = i + 1;
        }
        let data = array_from_vec(wide);
        assert(narrowed(packed_elements(data)) =~= vector@);
        PackedVector { data }
    }

    /// Number of coordinates.
    pub fn len(&self) -> (len: usize)
        ensures
            len == self@.len(),
    {
        array_len(&self.data)
    }

    /// The coordinate at `index`.
    pub fn at(&self, index: usize) -> (coordinate: VectorElementType)
        requires
            index < self@.len(),
        ensures
            coordinate == self@[index as int],
    {
        proof {
            use_type_invariant(self);
        }
        let wide: i64 = array_get(&self.data, index);
        wide as VectorElementType
    }

    /// Dot product with `other`, computed on the packed arrays.
    pub fn dot(&self, other: &PackedVector) -> (sum: i64)
        requires
            self@.len() == other@.len(),
            self@.len() <= MAX_DIMENSION,
        ensures
            sum == dot_product(self@, other@),
    {
        proof {
            use_type_invariant(self);
            use_type_invariant(other);
        }
        array_dot(&self.data, &other.data)
    }
}

} // verus!
