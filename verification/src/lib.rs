//! A keyed pseudo-random permutation over `[0, N)`.
//!
//! A balanced Feistel network turns a keyed mixing function into an
//! invertible permutation on the smallest even-width power-of-two domain
//! covering `N`; cycle-walking restricts that permutation to `[0, N)`.
//! The result is a constant-space, restartable iterator over a keyed
//! shuffle of `0..N`, together with forward and backward index maps.

mod masks;
mod round_hash;

pub mod feistel;
pub mod walk;
