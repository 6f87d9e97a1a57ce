use vstd::prelude::*;

pub mod outside;
pub mod text;
pub mod calendar;
pub mod updater;
pub mod model;
pub mod render_ly;
pub mod lyric_check;
pub mod show;
pub mod frame;
pub mod pr;
pub mod preferences;

verus! {
} // verus!
