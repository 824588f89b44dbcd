//! Verified core of a DAB / T-DMB receiver.
//!
//! The crate holds the parts of the receiver that work on integers, bits and
//! bytes.  Sampling, filtering and transforms on floating-point samples belong
//! to the program around it.

// Inner code: scrambling, convolutional code, puncturing.
pub mod bits;
pub mod descramble;
pub mod viterbi;
pub mod viterbi_laws;
pub mod puncture;
pub mod profile;
pub mod eep;
pub mod fic_protection;

// Outer code: byte interleaving and Reed-Solomon blocks.
pub mod interleaver;
pub mod rs;
pub mod outer;

// Recorded transport frames.
pub mod text;
pub mod eti;
pub mod msc;
pub mod eti_session;
pub mod eti_laws;

// Fast information channel and ensemble.
pub mod crc;
pub mod fig;
pub mod fic_tables;
pub mod label;
pub mod ensemble;
pub mod ensemble_laws;
pub mod repetition;
pub mod fig_encoding;
pub mod fic_decode;

// Main service channel.
pub mod time_deinterleaver;
pub mod msc_decode;

// Samples, symbols and carriers.
pub mod le;
pub mod iq_format;
pub mod iq_samples;
pub mod params;
pub mod frame_sync;
pub mod null_detect;
pub mod cp_sync;
pub mod resampler;
pub mod freq_interleaver;
pub mod carriers;
pub mod phase_table;
pub mod channel_eq;
pub mod dqpsk_demap;
pub mod fic_pipeline;

// Comparison of soft bits.
pub mod symbol_table;
pub mod capture;
pub mod diag;
