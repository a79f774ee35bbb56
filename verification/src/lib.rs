//! Arithmetic core of a lattice-based homomorphic-encryption scheme over the
//! polynomial ring Z[x]/(x^N + 1).
//!
//! The exact integer layer — arbitrary-precision ring arithmetic, reduction
//! modulo x^N + 1, signed base-b gadget decomposition, CRT parameter selection
//! and reconstruction, and centered remainders — is verified here. The
//! floating-point FFT evaluation domain is inherently approximate; the library
//! carries those transform values opaquely and proves the shape discipline and
//! every exact step around them.

pub mod arith;
pub mod bignum;
pub mod poly_spec;
pub mod big_polynomial;
pub mod gadget;
pub mod context;
pub mod util;
pub mod dcrt;
pub mod gahe;
