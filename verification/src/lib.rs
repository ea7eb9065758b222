use vstd::prelude::*;

pub mod book;
pub mod chars;
pub mod document;
pub mod grammar;
pub mod html;
pub mod layout;
pub mod nodes;
pub mod number;
pub mod parser;
pub mod platform;
pub mod raster;
pub mod source;
pub mod stream;

verus! {

} // verus!
