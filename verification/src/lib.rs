//! The decision logic around the `am` atmospheric model: the text handling of
//! the model's diagnostic output, the bookkeeping of which spectra a model
//! run offers, and the library's error values.

pub mod text;
pub mod warnings;
pub mod error;
pub mod model;
