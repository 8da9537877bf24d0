//! Verified core of an infinite drawing canvas with sticky-note memos.
use vstd::prelude::*;

pub mod canvas;
pub mod memo_color;
pub mod stroke;
pub mod wrap;

verus! {
} // verus!
