//! Terminal output to SVG: the verified core.
//!
//! Terminal bytes are resolved into styled runs, recordings are cleaned
//! and encoded, and the SVG carries its own source. Rendering geometry,
//! I/O and the third-party parsers live outside this crate's proofs.
pub mod text;
pub mod theme;
pub mod term;
pub mod cast;
pub mod render;
pub mod edit;
pub mod embed;
pub mod anim;
pub mod options;
pub mod capture;
pub mod font;
pub mod editor;


