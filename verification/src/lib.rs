//! Module-LWE public-key encryption over the ring `Z_q[x] / (x^n + 1)`.
//!
//! The crate is layered bottom-up.
//!
//! * [`poly_spec`] holds the mathematics of coefficient sequences, in which
//!   every contract is written; [`polynomial`] the polynomial value type and
//!   the calls into `polynomial_ring`; [`ring_mod`] arithmetic in the ring.
//! * [`sampling`] draws random integers through `rand`; [`layout`] cuts flat
//!   runs of integers into polynomials and back; [`utils`] has the
//!   parameters and the vector and matrix operations.
//! * [`keygen`], [`encrypt`] and [`decrypt`] are the three operations of the
//!   scheme, on polynomials and on text; [`codec`] turns bytes into blocks of
//!   bits, [`wire`] keys and ciphertexts into integers, [`encoding`]
//!   integers into text.
//! * [`laws`] states what holds of the whole: decryption inverts encryption
//!   while the noise stays within the margin, ciphertexts add, the empty
//!   message stays empty. [`algebra`], [`ring_laws`], [`scheme_laws`] and
//!   [`wire_laws`] carry the proofs.

pub mod poly_spec;
pub mod polynomial;
pub mod ring_mod;
pub mod rounding;
pub mod sampling;
pub mod layout;
pub mod error;
pub mod encoding;
pub mod utils;
pub mod codec;
pub mod wire;
pub mod keygen;
pub mod encrypt;
pub mod decrypt;
pub mod algebra;
pub mod ring_laws;
pub mod scheme_laws;
pub mod wire_laws;
pub mod laws;

pub use encoding::{compress, decompress};
pub use error::LweError;
pub use polynomial::Polynomial;
pub use utils::{
    add_vec, gen_small_vector, gen_uniform_matrix, mul_mat_vec_simple, mul_vec_simple, transpose,
    Parameters,
};
