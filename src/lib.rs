//! The core of a modal terminal text editor: a codepoint-addressed text
//! buffer that keeps the length of each line beside the text (`text`), the
//! line model it is proved against (`lines`), and the NORMAL / INSERT key
//! handling that keeps the screen cursor and the buffer in step (`modes`).
use vstd::prelude::*;

pub mod lines;
pub mod modes;
pub mod text;

verus! {

} // verus!
