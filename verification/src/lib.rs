//! Replay of recorded symbol operations over GF(256).
//!
//! Encoding or decoding a block of symbols comes down to adding and scaling rows of
//! octets. This library records those row operations, and performs them on a slab of
//! symbols: one after the other, or shared out by columns among the workers of a pool.
//! However they are performed, the symbols end up as [`model::apply_ops`] says.
//!
//! - [`model`]: what the operations mean, and the laws of replaying them.
//! - [`octet`], [`octets`]: the field GF(256), and arithmetic on runs of its elements.
//! - [`symbol`], [`symbol_slab`]: symbols, and the buffer that holds many of them.
//! - [`operation_vector`]: recorded operations, schedules, and performing them.
//! - [`replay_pool`]: how a job is cut into chunks, handed out and accounted for.
//! - [`operation_laws`], [`sharing_laws`]: what performing operations and sharing them out
//!   comes to, octet by octet and number by number.
//! - [`pool_protocol`]: what holds of a pool under every interleaving of its workers.

pub mod model;
pub mod octet;
pub mod octets;
pub mod operation_laws;
pub mod operation_vector;
pub mod pool_protocol;
pub mod replay_pool;
pub mod sharing_laws;
pub mod symbol;
pub mod symbol_slab;
