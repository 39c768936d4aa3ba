//! Growable vectors of unsigned integers.
//!
//! The dimension is the length of the backing buffer, fixed only by use;
//! the dot product demands operands of equal dimension.

use crate::vector::{dot_prefix, lemma_dot_prefix_grows};
use vstd::prelude::*;

verus! {

/// A vector of unsigned integers whose dimension is chosen at runtime.
#[derive(Clone)]
pub struct VectorN {
    pub data: Vec<u64>,
}

impl View for VectorN {
    type V = Seq<u64>;

    open spec fn view(&self) -> Seq<u64> {
        self.data@
    }
}

impl VectorN {
    /// A new vector holding exactly the given elements.
    pub fn new(data: Vec<u64>) -> (v: Self)
        ensures
            v@ == data@,
    {
        VectorN { data }
    }

    /// The dimension of the vector.
    pub fn len(&self) -> (n: usize)
        ensures
            n == self@.len(),
    {
        self.data.len()
    }

    /// The dot product of two vectors of equal dimension.
    pub fn dot(a: VectorN, b: VectorN) -> (r: u64)
        requires
            a@.len() == b@.len(),
            dot_prefix(a@, b@, a@.len() as int) <= u64::MAX,
        ensures
            r == dot_prefix(a@, b@, a@.len() as int),
    {
        let mut acc: u64 = 0;
        let mut i: usize = 0;
        let n = a.data.len();
        while i < n
            invariant
                i <= n,
                n == a@.len(),
                n == b@.len(),
                dot_prefix(a@, b@, n as int) <= u64::MAX,
                acc == dot_prefix(a@, b@, i as int),
            decreases n - i,
        {
            let x = a.data[i];
            let y = b.data[i];
            proof {
                lemma_dot_prefix_grows(a@, b@, i + 1, n as int);
                lemma_dot_prefix_grows(a@, b@, i as int, i + 1);
                assert(x * y >= 0) by (nonlinear_arith)
                    requires
                        x >= 0,
                        y >= 0,
                ;
            }
            acc = acc + x * y;
            i = i + 1;
        }
        acc
    }
}

} // verus!
