//! Hide and extract data in sequences of ternary values (-1, 0, +1).
//!
//! Five techniques embed bytes into a carrier sequence without changing its
//! length: bit embedding, pattern encoding, frequency modulation, statistical
//! steganography and spread spectrum. Every encoder and decoder is specified
//! over the mathematical view of the carrier (`Seq<Trit>`).

pub mod bit_embedder;
pub mod bits;
mod blocks;
pub mod capacity;
pub mod frequency;
pub mod pattern;
pub mod sequence;
pub mod spread;
pub mod statistical;
pub mod trit;

pub use bit_embedder::BitEmbedder;
pub use capacity::CapacityAnalyzer;
pub use frequency::FrequencyModulator;
pub use pattern::PatternEncoder;
pub use sequence::TernarySequence;
pub use spread::SpreadSpectrum;
pub use statistical::StatisticalStego;
pub use trit::Trit;
