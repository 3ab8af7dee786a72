//! Small verified algorithms on grids and integers: convex hulls of grid points,
//! region metrics of labelled grids, two pseudorandom generators and the number
//! theory they lean on.
pub mod hull;
pub mod math;
pub mod clock;
pub mod blum_blum_shub;
pub mod xorshift;
pub mod grid;
pub mod subregions;
