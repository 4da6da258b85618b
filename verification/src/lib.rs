//! Canonical-ABI transfers for dynamic Component Model calls, verified, and the benchmark scenario
//! around them.

pub mod archetype;
pub mod arena;
pub mod arrival;
pub mod batch;
pub mod call;
pub mod column;
pub mod demos;
pub mod figure;
pub mod float_demos;
pub mod floats;
pub mod guest;
pub mod guests;
pub mod laws;
pub mod layout;
pub mod lift;
pub mod lower;
pub mod prng;
pub mod report;
pub mod results;
pub mod scenario;
pub mod shape;
pub mod simulation;
pub mod source;
pub mod store;
pub mod stream;
pub mod text;
pub mod validity;
pub mod value;
