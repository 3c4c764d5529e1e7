//! Sivana: landmark audio recognition.
//!
//! The library holds the logic of the recogniser, stated in contracts over
//! mathematical models and proved by Verus. Signal processing in floating
//! point, files, sockets and clocks live in the application around it, which
//! hands plain values in and takes plain values back.
pub mod affine;
pub mod api_error;
pub mod bands;
pub mod bench;
pub mod bignum;
pub mod bytes;
pub mod calibrate;
pub mod config;
pub mod decode;
pub mod degradation;
pub mod engine;
pub mod framing;
pub mod hash;
pub mod ids;
pub mod ingest;
pub mod landmark;
pub mod legacy;
pub mod limiter;
pub mod loadgen;
pub mod manifest;
pub mod matcher;
pub mod peaks;
pub mod posting_store;
pub mod postings;
pub mod ratio;
pub mod recognition;
pub mod report;
pub mod rng;
pub mod segment;
pub mod server;
pub mod sfp;
pub mod sliding_max;
pub mod sort;
pub mod stats;
pub mod streaming;
pub mod text;
pub mod triplets;
pub mod version;
pub mod wav;
pub mod youtube;
