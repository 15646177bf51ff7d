//! An entropy writer for AV1 still images: a range coder that turns symbols,
//! each with its distribution, into the bytes that a decoder reads back.
//!
//! `entropycode` holds the writer and `util` its helpers. `model` states
//! what the writer does as arithmetic on unbounded numbers, `decode` proves
//! that a decoder recovers what was written, and `bitcodes` does so for
//! literals and Exp-Golomb codes. `bigendian` and `bits` hold the facts about
//! byte strings and powers of two that the proofs rest on, and `consts` the
//! tables of the stages around the writer.

pub mod bigendian;
pub mod bitcodes;
pub mod bits;
pub mod consts;
pub mod decode;
pub mod entropycode;
pub mod model;
pub mod util;
