//! Dense vectors.

use vstd::prelude::*;

verus! {

/// A dense vector: an ordered sequence of values indexed from 0.
#[derive(Debug, Clone, PartialEq)]
pub struct Vector<V> {
    pub values: Vec<V>,
}

impl<V: Copy> Vector<V> {
    pub open spec fn view(&self) -> Seq<V> {
        self.values@
    }

    pub fn len(&self) -> (r: usize)
        ensures
            r == self@.len(),
    {
        self.values.len()
    }

    pub fn is_empty(&self) -> (r: bool)
        ensures
            r == (self@.len() == 0),
    {
        self.values.len() == 0
    }

    /// The vector of length `n` whose every component is `zero`.
    pub fn null(n: usize, zero: V) -> (r: Self)
        ensures
            r@ == Seq::new(n as nat, |i: int| zero),
    {
        let mut values: Vec<V> = Vec::new();
        let mut i: usize = 0;
        while i < n
            invariant
                i <= n,
                values@ == Seq::new(i as nat, |k: int| zero),
            decreases n - i,
        {
            values.push(zero);
            i = i + 1;
            proof {
                assert(values@ =~= Seq::new(i as nat, |k: int| zero));
            }
        }
        Vector { values }
    }

    /// Fails with `ShapeMismatch` unless both vectors have the same length.
    pub fn check_same_len(&self, other: &Self) -> (r: Result<usize, crate::error::MatError>)
        ensures
            self@.len() == other@.len() ==> r == Ok::<usize, crate::error::MatError>(
                self@.len() as usize,
            ),
            self@.len() != other@.len() ==> r == Err::<usize, crate::error::MatError>(
                crate::error::MatError::ShapeMismatch,
            ),
    {
        if self.values.len() == other.values.len() {
            Ok(self.values.len())
        } else {
            Err(crate::error::MatError::ShapeMismatch)
        }
    }
}

} // verus!
