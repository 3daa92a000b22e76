//! Shape, layout and index logic of a small tensor and autograd framework,
//! with the binary checkpoint format of its parameters.
pub mod shape;
pub mod broadcast;
pub mod gather;
pub mod index;
pub mod layout;
pub mod checkpoint;
pub mod conv;
pub mod nn;
pub mod backend;
pub mod attention;
pub mod embedding;
pub mod autograd;
