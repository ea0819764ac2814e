//! The dmenu picker.

use vstd::prelude::*;

use dmenu_facade::DMenu;

use crate::select::{strs, SelectTool};

verus! {

/// Relies on dmenu_facade's `DMenu::execute_consume`, with a prompt: it hands
/// back one of the items it was given, the one whose line the user picked.
#[verifier::external_body]
fn dmenu_choose(prompt: &str, entries: Vec<String>) -> (r: Option<String>)
    ensures
        r matches Some(s) ==> strs(entries@).contains(s@),
{
    DMenu::default().with_prompt(prompt).execute_consume(entries).ok()
}

/// Picks with dmenu.
pub struct DmenuSelectTool;

impl SelectTool for DmenuSelectTool {
    fn select(&self, entries: Vec<String>) -> (r: Option<String>) {
        dmenu_choose("Secrets", entries)
    }
}

} // verus!
