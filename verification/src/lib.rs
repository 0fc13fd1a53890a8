//! Streaming peak detection over fixed-length blocks of magnitude samples.
//!
//! Magnitudes are integer sample units (a caller picks the scale when it
//! quantises its signal). Windowed statistics are kept as exact numerators
//! over fixed denominators: a moving average is stored as the sum of the
//! `window_size` most recent samples (denominator `window_size`), a moving
//! variance as a numerator over `window_size` cubed. Every formula is stated
//! and proved exactly; nothing is rounded except the explicitly documented
//! floor in the re-trigger smoothing blend.

pub mod ring;
pub mod stats;
pub mod peaks;
