use vstd::prelude::*;

pub mod distinct;
pub mod engine;
pub mod romaji;
pub mod text;

verus! {

} // verus!
