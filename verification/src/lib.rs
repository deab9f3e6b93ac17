//! Core logic of a haptic video player.
//!
//! The two central subsystems are verified here in full: the windowed
//! motion-to-intensity signal processor over funscript motion waypoints
//! (`funscript`), and the device synchronization controller that tracks
//! hardware actuators and turns a shared control value into per-capability
//! commands (`device`). Around them stand the pure decision parts of the
//! serving side: path handling (`serving`) and the metadata store's data
//! model and maintenance logic (`metadata`).
//!
//! Positions, intensities and control values are fixed-point integers in
//! milli-units (one thousandth of a unit), so that every computation is
//! exact and deterministic. The I/O around this library — HTTP, the
//! relational store, the file system, and the hardware transport — hands
//! in plain values and performs the actions decided here.

pub mod device;
pub mod funscript;
pub mod metadata;
pub mod serving;
