//! The byte-level rendering of the output formats that the library writes
//! itself. Writing the bytes to files is left to the caller.

pub mod dta;
pub mod fwf;
pub mod json;
pub mod spss;
