//! An approximate solver for convex objectives of the form
//! f(x) = xᵀAx + qᵀx + Σᵢ max(xᵢ·bᵢ, xᵢ·sᵢ) subject to aᵀx = E,
//! computed by projected subgradient descent over exact rational arithmetic.

pub mod digits;
pub mod laws;
pub mod rational;
pub mod solver;
pub mod vecops;
