//! Column vectors: an owned one and two kinds of views into one.
use vstd::prelude::*;
use vstd::slice::slice_subrange;
use vstd::slice::slice_to_vec;

use crate::linalg::kernels;
use crate::linalg::kernels::{
    axpy_slices, copy_slice, dot_slices, fill_slice, is_zero, mul_slices, sum_of_squares,
};
use crate::scalar::Real;

verus! {

/// A vector of a length chosen at run time.
#[derive(Clone, Debug)]
pub struct DVector<T: Real> {
    /// The entries, from the first row to the last.
    pub data: Vec<T>,
}

impl<T: Real> View for DVector<T> {
    type V = Seq<T>;

    open spec fn view(&self) -> Seq<T> {
        self.data@
    }
}

impl<T: Real> Default for DVector<T> {
    /// The vector without entries.
    fn default() -> (r: Self)
        ensures
            r@ == Seq::<T>::empty(),
    {
        DVector { data: Vec::new() }
    }
}

/// A `Vec` of `n` entries that are all `value`.
pub(crate) fn repeated<T: Real>(n: usize, value: T) -> (r: Vec<T>)
    ensures
        r@ == Seq::new(n as nat, |i: int| value),
{
    let mut data: Vec<T> = Vec::with_capacity(n);
    for i in 0..n
        invariant
            data@ == Seq::new(i as nat, |k: int| value),
    {
        data.push(value);
        assert(data@ =~= Seq::new((i + 1) as nat, |k: int| value));
    }
    data
}

impl<T: Real> DVector<T> {
    /// A vector with the entries of `data`.
    pub fn from_vec(data: Vec<T>) -> (r: Self)
        ensures
            r@ == data@,
    {
        DVector { data }
    }

    /// A vector with a copy of the entries of `slice`.
    pub fn from_slice(slice: &[T]) -> (r: Self)
        ensures
            r@ == slice@,
    {
        DVector { data: slice_to_vec(slice) }
    }

    /// The vector of `n` zeros.
    pub fn zeros(n: usize) -> (r: Self)
        ensures
            r@ == Seq::new(n as nat, |i: int| T::zero()),
    {
        DVector { data: repeated(n, T::zero()) }
    }

    /// The vector of `n` entries that are all `value`.
    pub fn from_element(n: usize, value: T) -> (r: Self)
        ensures
            r@ == Seq::new(n as nat, |i: int| value),
    {
        DVector { data: repeated(n, value) }
    }

    /// The number of entries.
    pub fn nrows(&self) -> (r: usize)
        ensures
            r == self@.len(),
    {
        self.data.len()
    }

    /// One: a vector is a single column.
    pub fn ncols(&self) -> (r: usize)
        ensures
            r == 1,
    {
        1
    }

    /// The number of entries.
    pub fn len(&self) -> (r: usize)
        ensures
            r == self@.len(),
    {
        self.data.len()
    }

    /// Whether there is no entry.
    pub fn is_empty(&self) -> (r: bool)
        ensures
            r == (self@.len() == 0),
    {
        self.data.is_empty()
    }

    /// The entries.
    pub fn as_slice(&self) -> (r: &[T])
        ensures
            r@ == self@,
    {
        self.data.as_slice()
    }

    /// The entries, open to change.
    pub fn as_mut_slice(&mut self) -> (r: &mut [T])
        ensures
            r@ == old(self)@,
            final(self)@ == final(r)@,
    {
        self.data.as_mut_slice()
    }

    /// Entry `i`.
    pub fn index(&self, i: usize) -> (r: T)
        requires
            i < self@.len(),
        ensures
            r == self@[i as int],
    {
        self.data[i]
    }

    /// Entry `i`, open to change.
    pub fn at_mut(&mut self, i: usize) -> (r: &mut T)
        requires
            i < old(self)@.len(),
        ensures
            *r == old(self)@[i as int],
            final(self)@ == old(self)@.update(i as int, *final(r)),
    {
        &mut self.data[i]
    }

    /// A view of the `n` rows from `first` on.
    pub fn rows(&self, first: usize, n: usize) -> (r: DVectorView<'_, T>)
        requires
            first + n <= self@.len(),
        ensures
            r@ == self@.subrange(first as int, first + n),
    {
        let all: &[T] = self.data.as_slice();
        let len: usize = all.len();
        assert(first + n <= len);
        DVectorView { data: slice_subrange(all, first, first + n) }
    }

    /// A view of the `n` rows from `first` on, open to change.
    pub fn rows_mut(&mut self, first: usize, n: usize) -> (r: DVectorViewMut<'_, T>)
        requires
            first + n <= old(self)@.len(),
        ensures
            r@ == old(self)@.subrange(first as int, first + n),
            final(self)@ == old(self)@.subrange(0, first as int) + final(r.data)@
                + old(self)@.subrange(first + n, old(self)@.len() as int),
    {
        let (_, rest) = self.data.as_mut_slice().split_at_mut(first);
        let (middle, _) = rest.split_at_mut(n);
        DVectorViewMut { data: middle }
    }

    /// A copy.
    pub fn clone_owned(&self) -> (r: DVector<T>)
        ensures
            r@ == self@,
    {
        DVector { data: slice_to_vec(self.data.as_slice()) }
    }

    /// Takes over the entries of `other`, which has the same length.
    pub fn copy_from(&mut self, other: &DVector<T>)
        requires
            old(self)@.len() == other@.len(),
        ensures
            final(self)@ == other@,
    {
        copy_slice(self.data.as_mut_slice(), other.data.as_slice());
    }

    /// Sets every entry to `value`.
    pub fn fill(&mut self, value: T)
        ensures
            final(self)@ == Seq::new(old(self)@.len(), |i: int| value),
    {
        fill_slice(self.data.as_mut_slice(), value);
    }

    /// A view of the whole vector.
    pub fn as_view(&self) -> (r: DVectorView<'_, T>)
        ensures
            r@ == self@,
    {
        DVectorView { data: self.data.as_slice() }
    }

    /// The entries as a row. A row and a column hold the same entries, so this is a copy.
    pub fn transpose(&self) -> (r: DVector<T>)
        ensures
            r@ == self@,
    {
        self.clone_owned()
    }

    /// The vector of `n` entries whose entry `i` is `f(i)`.
    pub fn from_fn(n: usize, f: impl Fn(usize) -> T) -> (r: DVector<T>)
        requires
            forall|i: usize| i < n ==> call_requires(f, (i,)),
        ensures
            r@.len() == n,
            forall|i: usize| i < n ==> call_ensures(f, (i,), #[trigger] r@[i as int]),
    {
        let mut data: Vec<T> = Vec::with_capacity(n);
        for i in 0..n
            invariant
                data@.len() == i,
                forall|k: usize| k < n ==> call_requires(f, (k,)),
                forall|k: usize| k < i ==> call_ensures(f, (k,), #[trigger] data@[k as int]),
        {
            data.push(f(i));
        }
        DVector { data }
    }

    /// A copy of the `n` rows from `first` on.
    pub fn rows_owned(&self, first: usize, n: usize) -> (r: DVector<T>)
        requires
            first + n <= self@.len(),
        ensures
            r@ == self@.subrange(first as int, first + n),
    {
        self.rows(first, n).into_owned()
    }

    /// The largest magnitude of an entry.
    pub fn amax(&self) -> (r: T)
        ensures
            r == kernels::largest(self@, self@.len()),
    {
        let mut m = T::zero();
        for i in 0..self.data.len()
            invariant
                m == kernels::largest(self@, i as nat),
        {
            let a = self.data[i].abs();
            if m.lt(a) {
                m = a;
            }
        }
        m
    }

    /// The Euclidean norm.
    pub fn norm(&self) -> (r: T)
        ensures
            r == kernels::squares(self@, self@.len()).sqrt(),
    {
        sum_of_squares(self.data.as_slice()).sqrt()
    }

    /// The vector divided by its norm, or all zeros where the norm is zero.
    pub fn normalize(&self) -> (r: DVector<T>)
        ensures
            ({
                let n = kernels::squares(self@, self@.len()).sqrt();
                r@ == Seq::new(
                    self@.len(),
                    |i: int|
                        if is_zero(n) {
                            T::zero()
                        } else {
                            self@[i].div(n)
                        },
                )
            }),
    {
        let n = self.norm();
        if is_zero(n) {
            return DVector::zeros(self.data.len());
        }
        let mut data: Vec<T> = Vec::with_capacity(self.data.len());
        for i in 0..self.data.len()
            invariant
                data@ == Seq::new(i as nat, |k: int| self@[k].div(n)),
        {
            data.push(self.data[i].div(n));
            assert(data@ =~= Seq::new((i + 1) as nat, |k: int| self@[k].div(n)));
        }
        DVector { data }
    }

    /// A copy with `n` rows of `value` put in before row `i`.
    pub fn insert_rows(&self, i: usize, n: usize, value: T) -> (r: DVector<T>)
        requires
            i <= self@.len(),
            self@.len() + n <= usize::MAX,
        ensures
            r@ == self@.subrange(0, i as int) + Seq::new(n as nat, |k: int| value)
                + self@.subrange(i as int, self@.len() as int),
    {
        let mut data: Vec<T> = slice_to_vec(slice_subrange(self.data.as_slice(), 0, i));
        let mut middle: Vec<T> = repeated(n, value);
        let mut rest: Vec<T> = slice_to_vec(
            slice_subrange(self.data.as_slice(), i, self.data.len()),
        );
        data.append(&mut middle);
        data.append(&mut rest);
        DVector { data }
    }

    /// A copy of the rows from `first` to the last.
    pub fn index_range(&self, first: usize) -> (r: DVector<T>)
        requires
            first <= self@.len(),
        ensures
            r@ == self@.subrange(first as int, self@.len() as int),
    {
        DVector {
            data: slice_to_vec(slice_subrange(self.data.as_slice(), first, self.data.len())),
        }
    }

    /// The dot product with a vector of the same length.
    pub fn dot(&self, rhs: &DVector<T>) -> (r: T)
        requires
            self@.len() == rhs@.len(),
        ensures
            r == kernels::dot(self@, rhs@),
    {
        dot_slices(self.data.as_slice(), rhs.data.as_slice())
    }

    /// The products of the entries at the same place.
    pub fn component_mul(&self, other: &DVector<T>) -> (r: DVector<T>)
        requires
            self@.len() == other@.len(),
        ensures
            r@ == Seq::new(self@.len(), |i: int| self@[i].mul(other@[i])),
    {
        let mut data: Vec<T> = Vec::with_capacity(self.data.len());
        for i in 0..self.data.len()
            invariant
                self@.len() == other@.len(),
                data@ == Seq::new(i as nat, |k: int| self@[k].mul(other@[k])),
        {
            data.push(self.data[i].mul(other.data[i]));
            assert(data@ =~= Seq::new((i + 1) as nat, |k: int| self@[k].mul(other@[k])));
        }
        DVector { data }
    }

    /// Sets the vector to `a * x + b * self`. With a zero `b` the old entries do not count.
    pub fn axpy(&mut self, a: T, x: &DVector<T>, b: T)
        requires
            old(self)@.len() == x@.len(),
        ensures
            final(self)@ == kernels::axpy(a, x@, b, old(self)@),
    {
        axpy_slices(self.data.as_mut_slice(), a, x.data.as_slice(), b);
    }
}

/// A view of consecutive rows of a vector.
#[derive(Clone, Copy, Debug)]
pub struct DVectorView<'a, T: Real> {
    /// The entries.
    pub data: &'a [T],
}

impl<'a, T: Real> View for DVectorView<'a, T> {
    type V = Seq<T>;

    open spec fn view(&self) -> Seq<T> {
        self.data@
    }
}

impl<'a, T: Real> DVectorView<'a, T> {
    /// The number of entries.
    pub fn nrows(&self) -> (r: usize)
        ensures
            r == self@.len(),
    {
        self.data.len()
    }

    /// One: a vector is a single column.
    pub fn ncols(&self) -> (r: usize)
        ensures
            r == 1,
    {
        1
    }

    /// The number of entries.
    pub fn len(&self) -> (r: usize)
        ensures
            r == self@.len(),
    {
        self.data.len()
    }

    /// Whether there is no entry.
    pub fn is_empty(&self) -> (r: bool)
        ensures
            r == (self@.len() == 0),
    {
        self.data.len() == 0
    }

    /// The entries.
    pub fn as_slice(&self) -> (r: &[T])
        ensures
            r@ == self@,
    {
        self.data
    }

    /// The dot product with a vector of the same length.
    pub fn dot(&self, rhs: &DVector<T>) -> (r: T)
        requires
            self@.len() == rhs@.len(),
        ensures
            r == kernels::dot(self@, rhs@),
    {
        dot_slices(self.data, rhs.data.as_slice())
    }

    /// A copy of the viewed rows.
    pub fn into_owned(self) -> (r: DVector<T>)
        ensures
            r@ == self@,
    {
        DVector::from_slice(self.data)
    }

    /// Copies the viewed rows into `dst`, which has the same length.
    pub fn copy_to(&self, dst: &mut DVector<T>)
        requires
            old(dst)@.len() == self@.len(),
        ensures
            final(dst)@ == self@,
    {
        copy_slice(dst.data.as_mut_slice(), self.data);
    }
}

impl<'a, T: Real> vstd::std_specs::core::IndexSpecImpl<usize> for DVectorView<'a, T> {
    open spec fn index_req(&self, index: &usize) -> bool {
        *index < self@.len()
    }
}

impl<'a, T: Real> std::ops::Index<usize> for DVectorView<'a, T> {
    type Output = T;

    /// Entry `i`.
    fn index(&self, i: usize) -> (r: &T)
        ensures
            *r == self@[i as int],
    {
        &self.data[i]
    }
}

/// A view of consecutive rows of a vector, open to change.
#[derive(Debug)]
pub struct DVectorViewMut<'a, T: Real> {
    /// The entries.
    pub data: &'a mut [T],
}

impl<'a, T: Real> View for DVectorViewMut<'a, T> {
    type V = Seq<T>;

    open spec fn view(&self) -> Seq<T> {
        self.data@
    }
}

impl<'a, T: Real> DVectorViewMut<'a, T> {
    /// The number of entries.
    pub fn nrows(&self) -> (r: usize)
        ensures
            r == self@.len(),
    {
        self.data.len()
    }

    /// One: a vector is a single column.
    pub fn ncols(&self) -> (r: usize)
        ensures
            r == 1,
    {
        1
    }

    /// The number of entries.
    pub fn len(&self) -> (r: usize)
        ensures
            r == self@.len(),
    {
        self.data.len()
    }

    /// Whether there is no entry.
    pub fn is_empty(&self) -> (r: bool)
        ensures
            r == (self@.len() == 0),
    {
        self.data.len() == 0
    }

    /// The entries.
    pub fn as_slice(&self) -> (r: &[T])
        ensures
            r@ == self@,
    {
        self.data
    }

    /// The entries, open to change.
    pub fn as_mut_slice(&mut self) -> (r: &mut [T])
        ensures
            r@ == old(self)@,
            final(self)@ == final(r)@,
            final(final(self).data)@ == final(old(self).data)@,
    {
        self.data
    }

    /// Takes over the entries of `src`, which has the same length.
    pub fn copy_from(&mut self, src: &DVector<T>)
        requires
            old(self)@.len() == src@.len(),
        ensures
            final(self)@ == src@,
            final(final(self).data)@ == final(old(self).data)@,
    {
        copy_slice(self.data, src.data.as_slice());
    }

    /// Copies the viewed rows into `dst`, which has the same length.
    pub fn copy_to(&self, dst: &mut DVector<T>)
        requires
            old(dst)@.len() == self@.len(),
        ensures
            final(dst)@ == self@,
    {
        copy_slice(dst.data.as_mut_slice(), self.data);
    }

    /// Sets the viewed rows to `a * x + b * self`. With a zero `b` the old entries do not count.
    pub fn axpy(&mut self, a: T, x: &DVector<T>, b: T)
        requires
            old(self)@.len() == x@.len(),
        ensures
            final(self)@ == kernels::axpy(a, x@, b, old(self)@),
            final(final(self).data)@ == final(old(self).data)@,
    {
        axpy_slices(self.data, a, x.data.as_slice(), b);
    }

    /// The Euclidean norm.
    pub fn norm(&self) -> (r: T)
        ensures
            r == kernels::squares(self@, self@.len()).sqrt(),
    {
        sum_of_squares(self.data).sqrt()
    }

    /// The square of the Euclidean norm.
    pub fn norm_squared(&self) -> (r: T)
        ensures
            r == kernels::squares(self@, self@.len()),
    {
        sum_of_squares(self.data)
    }

    /// Sets every entry to `value`.
    pub fn fill(&mut self, value: T)
        ensures
            final(self)@ == Seq::new(old(self)@.len(), |i: int| value),
            final(final(self).data)@ == final(old(self).data)@,
    {
        fill_slice(self.data, value);
    }

    /// A view of the rows from `r0` to the last, open to change.
    pub fn rows_range_mut(&mut self, r0: usize) -> (r: DVectorViewMut<'_, T>)
        requires
            r0 <= old(self)@.len(),
        ensures
            r@ == old(self)@.subrange(r0 as int, old(self)@.len() as int),
            final(self)@ == old(self)@.subrange(0, r0 as int) + final(r.data)@,
            final(final(self).data)@ == final(old(self).data)@,
    {
        let (_, rest) = self.data.split_at_mut(r0);
        DVectorViewMut { data: rest }
    }

    /// Multiplies every entry by the entry of `other` at the same place.
    pub fn component_mul_assign(&mut self, other: &DVector<T>)
        requires
            old(self)@.len() == other@.len(),
        ensures
            final(self)@ == Seq::new(old(self)@.len(), |i: int| old(self)@[i].mul(other@[i])),
            final(final(self).data)@ == final(old(self).data)@,
    {
        mul_slices(self.data, other.data.as_slice());
    }

    /// Entry `i`, open to change.
    pub fn index_mut(&mut self, i: usize) -> (r: &mut T)
        requires
            i < old(self)@.len(),
        ensures
            *r == old(self)@[i as int],
            final(self)@ == old(self)@.update(i as int, *final(r)),
            final(final(self).data)@ == final(old(self).data)@,
    {
        &mut self.data[i]
    }
}

impl<'a, T: Real> vstd::std_specs::core::IndexSpecImpl<usize> for DVectorViewMut<'a, T> {
    open spec fn index_req(&self, index: &usize) -> bool {
        *index < self@.len()
    }
}

impl<'a, T: Real> std::ops::Index<usize> for DVectorViewMut<'a, T> {
    type Output = T;

    /// Entry `i`.
    fn index(&self, i: usize) -> (r: &T)
        ensures
            *r == self@[i as int],
    {
        &self.data[i]
    }
}

impl<T: Real> vstd::std_specs::convert::FromSpecImpl<Vec<T>> for DVector<T> {
    open spec fn obeys_from_spec() -> bool {
        true
    }

    open spec fn from_spec(v: Vec<T>) -> Self {
        DVector { data: v }
    }
}

impl<T: Real> From<Vec<T>> for DVector<T> {
    /// A vector with the entries of `v`.
    fn from(v: Vec<T>) -> (r: DVector<T>) {
        DVector { data: v }
    }
}

impl<T: Real> vstd::std_specs::convert::FromSpecImpl<&[T]> for DVector<T> {
    open spec fn obeys_from_spec() -> bool {
        false
    }

    open spec fn from_spec(v: &[T]) -> Self {
        arbitrary()
    }
}

impl<T: Real> From<&[T]> for DVector<T> {
    /// A vector with a copy of the entries of `v`.
    fn from(v: &[T]) -> (r: DVector<T>)
        ensures
            r@ == v@,
    {
        DVector::from_slice(v)
    }
}

} // verus!
