//! The bare polygon type: an ordered cyclic sequence of vertices of any
//! point representation, validated at construction.

use vstd::prelude::*;
use crate::geometry::BilliardsError;

verus! {

/// An ordered cyclic sequence of at least three vertices.
#[derive(Debug)]
pub struct Polygon<T> {
    pub vertices: Vec<T>,
}

impl<T> Polygon<T> {
    /// Fails with `InvalidTableError` exactly when fewer than three
    /// vertices are given.
    pub fn new(vertices: Vec<T>) -> (r: Result<Polygon<T>, BilliardsError>)
        ensures
            r matches Ok(p) ==> p.vertices@ == vertices@ && p.vertices@.len() >= 3,
            (r is Err) == (vertices@.len() < 3),
            r matches Err(e) ==> e == BilliardsError::InvalidTableError,
    {
        if vertices.len() < 3 {
            Err(BilliardsError::InvalidTableError)
        } else {
            Ok(Polygon { vertices })
        }
    }
}

} // verus!
