//! Analog FPV video: band plans, scanning, detection, decoding and the
//! reconstruction of fields, stated and proved over exact integers.
//!
//! Measurements that need floating point come in as closures; what is handed
//! to them and what becomes of their answers is stated whatever they answer.

pub mod acquisition;
pub mod bands;
pub mod ddc;
pub mod decode;
pub mod demod;
pub mod detector;
pub mod frame_history;
pub mod gain;
pub mod gpu;
pub mod impairments;
pub mod levels;
pub mod metrics;
pub mod neural;
pub mod offset;
pub mod scanner;
pub mod seqs;
pub mod stats;
pub mod synthetic;
pub mod text;
pub mod timing;
pub mod types;
pub mod vbi;
pub mod video;
