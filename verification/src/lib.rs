//! Billiard dynamics on polygonal tables, built on an exact rational
//! geometric kernel.
//!
//! Numeric policy: all boundary logic (parametrization, chords, tangent
//! queries, reflections, inversions) is carried out in exact rational
//! arithmetic over 64-bit numerators and denominators, so geometric
//! predicates (equality, sidedness, ordering of hits) are decided exactly.
//! Euclidean edge lengths, which are irrational in general, are replaced by
//! fixed-precision rational approximations computed once at table
//! construction; the boundary-time parametrization is defined with respect to
//! those stored lengths, which keeps every derived identity (periodicity,
//! perimeter additivity, chord endpoints) exact. Operations whose exact
//! result would exceed the 64-bit range report an arithmetic-range error
//! rather than silently rounding.

pub mod rat;
pub mod geometry;
pub mod polygon;
pub mod table;
pub mod billiards;
