//! The rofi picker.

use vstd::prelude::*;

use crate::select::{strs, SelectTool};

verus! {

/// Relies on rofi's `Rofi::run_index`, with a prompt: the position of the
/// line the user picked, which nothing here takes on trust to be in range.
#[verifier::external_body]
fn rofi_choose_index(prompt: &str, entries: &Vec<String>) -> (r: Option<usize>) {
    ::rofi::Rofi::new(entries.as_slice()).prompt(prompt).run_index().ok()
}

/// The entry at the position a picker gave, if it gave one within range.
pub fn entry_at(entries: &Vec<String>, index: Option<usize>) -> (r: Option<String>)
    ensures
        match index {
            Some(i) => if i < entries.len() {
                r matches Some(s) && s@ == entries@[i as int]@
            } else {
                r is None
            },
            None => r is None,
        },
{
    match index {
        Some(i) => {
            if i < entries.len() {
                Some(entries[i].clone())
            } else {
                None
            }
        },
        None => None,
    }
}

/// Picks with rofi.
pub struct RofiSelectTool;

impl SelectTool for RofiSelectTool {
    fn select(&self, entries: Vec<String>) -> (r: Option<String>) {
        let r = entry_at(&entries, rofi_choose_index("Secrets", &entries));
        assert(r matches Some(s) ==> strs(entries@).contains(s@)) by {
            if r is Some {
                let i = choose|i: int| 0 <= i < entries.len() && r->0@ == entries@[i]@;
                assert(strs(entries@)[i] == r->0@);
            }
        }
        r
    }
}

} // verus!
