//! A textbook implementation of the BFV somewhat-homomorphic encryption
//! scheme over the polynomial ring Z[X]/(X^N + 1), with exact integer
//! coefficient arithmetic and verified contracts for every operation.

pub mod bounds;
pub mod ciphertext;
pub mod keys;
pub mod laws;
pub mod plaintext;
pub mod poly;
pub mod random_source;
pub mod ring;
pub mod sums;

pub use poly::Poly;
pub use plaintext::Plaintext;
pub use ciphertext::Ciphertext;
pub use keys::SecretKey;
pub use keys::PublicKey;
pub use keys::RelinearizationKey1;
pub use keys::RelinearizationKey2;
