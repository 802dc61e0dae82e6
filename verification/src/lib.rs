//! Multi-dimensional discrete Fourier transforms, forward and inverse,
//! built by composing a trusted 1-D kernel along selected axes of a dense
//! row-major array. The n-dimensional orchestration — walking every lane
//! along a chosen axis, applying the kernel to each, and sequencing axis
//! passes into a separable transform — is verified; the 1-D kernel itself
//! is rustfft, called through a few trusted wrappers.

pub mod array;
pub mod kernel;
pub mod transform;

pub use array::NdArray;
pub use kernel::{fft, ifft};
pub use transform::{fft2, fftn, fftnd, ifft2, ifftn, ifftnd, mutate_lane};
