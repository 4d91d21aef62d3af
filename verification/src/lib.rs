//! Extremal palindromic products over an inclusive integer range.
//!
//! For a range `[min, max]` the library finds the smallest and the largest
//! product `a * b` with `min <= a <= b <= max` whose base-10 digits read the
//! same forwards and backwards, together with every factor pair that yields
//! each of the two products.

pub mod digits;
pub mod products;

pub use products::check_palindrom;
pub use products::is_palindrome;
pub use products::palindrome_products;
pub use products::reverse;
pub use products::Palindrome;
