//! Reading Nesstar survey containers: binary layouts, checked decoding and
//! the byte-level rendering of the supported output formats.

pub mod bytes;

pub mod text;
pub mod model;
pub mod layout;
pub mod order;
pub mod double;
pub mod source;
pub mod decode;
pub mod pipeline;
pub mod error;
pub mod formats;
pub mod ddi;
pub mod xml;
pub mod dataset;
pub mod web;
