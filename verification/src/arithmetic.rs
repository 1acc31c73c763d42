//! The arithmetic on vectors that encoding and distances need.
use vstd::prelude::*;
use vstd::slice::slice_to_vec;

use crate::float::{Float32, TINY_NORM_BITS};
use crate::rotation::{dot_callable, dot_result};

verus! {

/// The arithmetic on vectors: the Euclidean norm, the quotient of two numbers, and the dot
/// product of two vectors of the same length.
pub struct VectorArithmetic<N, V, D> {
    pub norm: N,
    pub divide: V,
    pub dot: D,
}

/// The number below which a norm counts as zero.
pub open spec fn tiny_norm() -> Float32 {
    Float32 { bits: TINY_NORM_BITS }
}

impl<
    N: Fn(&[Float32]) -> Float32,
    V: Fn(Float32, Float32) -> Float32,
    D: Fn(&[Float32], &[Float32]) -> Float32,
> VectorArithmetic<N, V, D> {
    /// Whether the functions can be called wherever they are needed.
    pub open spec fn callable(self) -> bool {
        &&& forall|x: &[Float32]| #[trigger] call_requires(self.norm, (x,))
        &&& forall|a: Float32, b: Float32| #[trigger] call_requires(self.divide, (a, b))
        &&& dot_callable(self.dot)
    }

    /// Whether each function gives one result only for the same arguments.
    pub open spec fn single_valued(self) -> bool {
        &&& forall|x: Seq<Float32>, a: Float32, b: Float32| #[trigger]
            self.norm_result(x, a) && #[trigger] self.norm_result(x, b) ==> a == b
        &&& forall|x: Float32, y: Float32, a: Float32, b: Float32| #[trigger]
            call_ensures(self.divide, (x, y), a) && #[trigger] call_ensures(self.divide, (x, y), b)
                ==> a == b
        &&& forall|x: Seq<Float32>, y: Seq<Float32>, a: Float32, b: Float32| #[trigger]
            dot_result(self.dot, x, y, a) && #[trigger] dot_result(self.dot, x, y, b) ==> a == b
    }

    /// Whether `r` is a norm of the vector.
    pub open spec fn norm_result(self, x: Seq<Float32>, r: Float32) -> bool {
        exists|v: &[Float32]| v@ == x && #[trigger] call_ensures(self.norm, (v,), r)
    }

    /// Whether `r` is the vector with every coordinate divided by `by`.
    pub open spec fn divided(self, x: Seq<Float32>, by: Float32, r: Seq<Float32>) -> bool {
        &&& r.len() == x.len()
        &&& forall|i: int|
            0 <= i < x.len() ==> call_ensures(self.divide, (x[i], by), #[trigger] r[i])
    }

    /// Whether `r` is the vector to encode: divided by its norm, unless that is tiny.
    pub open spec fn normalized(self, x: Seq<Float32>, r: Seq<Float32>) -> bool {
        exists|length: Float32| #[trigger]
            self.norm_result(x, length) && if length.below(tiny_norm()) {
                r == x
            } else {
                self.divided(x, length, r)
            }
    }

    /// Whether `r` is the query of the given norm divided by it, where it is more than tiny.
    pub open spec fn normalized_query(
        self,
        x: Seq<Float32>,
        length: Float32,
        r: Seq<Float32>,
    ) -> bool {
        if tiny_norm().below(length) {
            self.divided(x, length, r)
        } else {
            r == x
        }
    }

    /// The norm of a vector.
    pub fn norm_of(&self, x: &[Float32]) -> (r: Float32)
        requires
            self.callable(),
        ensures
            self.norm_result(x@, r),
    {
        (self.norm)(x)
    }

    /// The vector with every coordinate divided by `by`.
    pub fn divide_all(&self, x: &[Float32], by: Float32) -> (r: Vec<Float32>)
        requires
            self.callable(),
        ensures
            self.divided(x@, by, r@),
    {
        let mut r: Vec<Float32> = Vec::new();
        for i in 0..x.len()
            invariant
                self.callable(),
                r@.len() == i,
                forall|j: int|
                    0 <= j < i ==> call_ensures(self.divide, (x@[j], by), #[trigger] r@[j]),
        {
            r.push((self.divide)(x[i], by));
        }
        r
    }

    /// The vector to encode: divided by its norm, unless that is tiny.
    pub fn normalize(&self, x: &[Float32]) -> (r: Vec<Float32>)
        requires
            self.callable(),
        ensures
            self.normalized(x@, r@),
            r@.len() == x@.len(),
    {
        let length: Float32 = self.norm_of(x);
        if length.less_than(Float32::from_bits(TINY_NORM_BITS)) {
            slice_to_vec(x)
        } else {
            self.divide_all(x, length)
        }
    }

    /// The query of the given norm divided by it, where it is more than tiny.
    pub fn normalize_query(&self, x: &[Float32], length: Float32) -> (r: Vec<Float32>)
        requires
            self.callable(),
        ensures
            self.normalized_query(x@, length, r@),
            r@.len() == x@.len(),
    {
        if Float32::from_bits(TINY_NORM_BITS).less_than(length) {
            self.divide_all(x, length)
        } else {
            slice_to_vec(x)
        }
    }
}

} // verus!
