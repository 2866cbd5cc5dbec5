//! The distance metrics a collection can be searched with. Their arithmetic
//! is on floating point, which the library does not take: the program
//! around it computes them and hands the graph code order keys.
use vstd::prelude::*;

verus! {

/// One minus the cosine of the angle between two vectors.
pub struct CosineDistance;

/// The Euclidean distance between two vectors.
pub struct EuclideanDistance;

/// The sum of the absolute coordinate differences of two vectors.
pub struct ManhattanDistance;

} // verus!
