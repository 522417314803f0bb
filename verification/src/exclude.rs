//! The exclude list: paths under which no file is decoded.

use crate::outside::strip_prefix_ok;
use std::path::PathBuf;
use vstd::prelude::*;

verus! {

/// Whether any of the answers is yes.
pub fn any_prefix_matched(matches: &[bool]) -> (found: bool)
    ensures
        found == exists|i: int| 0 <= i < matches@.len() && matches@[i],
{
    let mut i: usize = 0;
    while i < matches.len()
        invariant
            i <= matches.len(),
            forall|j: int| 0 <= j < i ==> !matches@[j],
        decreases matches.len() - i,
    {
        if matches[i] {
            return true;
        }
        i += 1;
    }
    false
}

/// Whether `pattern` lies under one of the paths of `exclude`. Each path of
/// the list is asked of the platform's path rules; with an empty list the
/// answer is no.
pub fn in_exclude(exclude: &Vec<PathBuf>, pattern: &PathBuf) -> (found: bool)
    ensures
        exclude@.len() == 0 ==> !found,
{
    let mut matches: Vec<bool> = Vec::new();
    let mut i: usize = 0;
    while i < exclude.len()
        invariant
            i <= exclude.len(),
            matches@.len() == i,
        decreases exclude.len() - i,
    {
        matches.push(strip_prefix_ok(pattern, &exclude[i]));
        i += 1;
    }
    any_prefix_matched(matches.as_slice())
}

} // verus!
