//! What holds of the library as a whole.
pub mod edits;
pub mod models;
pub mod names;
pub mod paths;
pub mod scripts;
pub mod searches;
pub mod walks;
