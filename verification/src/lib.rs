//! Points of a short Weierstrass curve `y^2 = x^3 + a*x + b` over a small prime
//! field, their group law, and the enumeration of all points of such a curve.

pub mod congruence;
pub mod cubic;
pub mod doubling;
pub mod enumerate;
pub mod group_law;
pub mod modular;
pub mod point;

pub use congruence::congruent;
pub use doubling::{doubled, doubling_steps, is_doubling_trace};
pub use enumerate::{find_points, is_enumeration, is_solution};
pub use modular::{
    bezout, check_prime, coprime, divides, extended_gcd, inverse_mod, is_gcd, is_prime, mul_mod,
    reduce,
};
pub use point::{add_points, satisfies_equation, Point, PointView};
