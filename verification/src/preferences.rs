//! Where the user's preferences are stored.
use vstd::prelude::*;
use crate::text;

verus! {

/// The preferences file: `preference.yaml` in the data directory.
pub fn path(data_dir: &str, sep: char) -> (r: String)
    ensures
        r@ == text::joined(data_dir@, "preference.yaml"@, sep),
{
    text::join_path(data_dir, "preference.yaml", sep)
}

} // verus!
