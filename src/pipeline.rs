//! The selection pipeline, one stage per type: the entries are filtered by a
//! prefix, the user picks one of what is left, and its secret is loaded.
//! The caller does the outside work between stages: it lists the entries,
//! runs the picker and loads the secret.

use vstd::prelude::*;
use vstd::string::*;

use crate::secrets::{same_text, Secrets};
use crate::select::{candidates_of, filter_and_remove_prefix, strs, Error};

verus! {

/// A run that has its prefix and waits for the store's entries.
pub struct Pipeline {
    prefix: String,
}

/// A run that waits for the user's choice among its candidates.
pub struct AwaitingSelection {
    prefix: String,
    candidates: Vec<String>,
}

/// A run whose entry is chosen, and which waits for that entry's secret.
pub struct Chosen {
    display_name: String,
    identifier: String,
}

impl View for Pipeline {
    /// The prefix.
    type V = Seq<char>;

    closed spec fn view(&self) -> Seq<char> {
        self.prefix@
    }
}

impl View for AwaitingSelection {
    /// The prefix and the candidates.
    type V = (Seq<char>, Seq<Seq<char>>);

    closed spec fn view(&self) -> (Seq<char>, Seq<Seq<char>>) {
        (self.prefix@, strs(self.candidates@))
    }
}

impl View for Chosen {
    /// The name shown for the entry, and the entry's full identifier.
    type V = (Seq<char>, Seq<char>);

    closed spec fn view(&self) -> (Seq<char>, Seq<char>) {
        (self.display_name@, self.identifier@)
    }
}

impl Pipeline {
    /// A run scoped to the entries that begin with `prefix`; the empty
    /// prefix takes them all.
    pub fn new(prefix: &str) -> (r: Pipeline)
        ensures
            r@ == prefix@,
    {
        Pipeline { prefix: String::from_str(prefix) }
    }

    /// Takes the store's entries and keeps those that begin with the prefix,
    /// without it. Where none is left the run fails with `NoSecretsFound`,
    /// and there is nothing to show a picker.
    pub fn filter(self, entries: Vec<String>) -> (r: Result<AwaitingSelection, Error>)
        ensures
            r is Err <==> candidates_of(self@, strs(entries@)).len() == 0,
            r matches Err(e) ==> e == Error::NoSecretsFound,
            r matches Ok(a) ==> a@ == (self@, candidates_of(self@, strs(entries@))),
    {
        let candidates = filter_and_remove_prefix(self.prefix.as_str(), entries);
        if candidates.len() == 0 {
            Err(Error::NoSecretsFound)
        } else {
            Ok(AwaitingSelection { prefix: self.prefix, candidates })
        }
    }
}

impl AwaitingSelection {
    /// The entries to show the user, without the prefix; never empty.
    pub fn candidates(&self) -> (r: &Vec<String>)
        ensures
            strs(r@) == self@.1,
    {
        &self.candidates
    }

    /// Takes what the user chose. Where nothing was chosen, or a text that is
    /// not a candidate, the run fails with `NothingSelected` and no secret is
    /// to be loaded; else the chosen entry is the prefix followed by the
    /// choice.
    pub fn pick(self, choice: Option<String>) -> (r: Result<Chosen, Error>)
        ensures
            r is Ok <==> (choice matches Some(c) && self@.1.contains(c@)),
            r matches Err(e) ==> e == Error::NothingSelected,
            r matches Ok(ch) ==> choice matches Some(c) && ch@ == (c@, self@.0 + c@),
    {
        match choice {
            Some(c) => {
                let mut i: usize = 0;
                while i < self.candidates.len()
                    invariant
                        choice == Some(c),
                        0 <= i <= self.candidates.len(),
                        forall|j: int| 0 <= j < i ==> strs(self.candidates@)[j] != c@,
                    decreases self.candidates.len() - i,
                {
                    if same_text(self.candidates[i].as_str(), c.as_str()) {
                        assert(strs(self.candidates@)[i as int] == c@);
                        assert(self@.1[i as int] == c@);
                        let identifier = self.prefix.concat(c.as_str());
                        return Ok(Chosen { display_name: c, identifier });
                    }
                    i = i + 1;
                }
                Err(Error::NothingSelected)
            },
            None => Err(Error::NothingSelected),
        }
    }
}

impl Chosen {
    /// The chosen entry's full identifier, prefix included: what to load.
    pub fn identifier(&self) -> (r: &str)
        ensures
            r@ == self@.1,
    {
        self.identifier.as_str()
    }

    /// The chosen entry without the prefix, as the user saw it.
    pub fn display_name(&self) -> (r: &str)
        ensures
            r@ == self@.0,
    {
        self.display_name.as_str()
    }

    /// Takes the loaded secret, or `None` where it could not be loaded, and
    /// ends the run with the name shown for the entry and its record.
    pub fn finish(self, record: Option<Secrets>) -> (r: Result<(String, Secrets), Error>)
        ensures
            r is Ok <==> record is Some,
            r matches Err(e) ==> e == Error::NoSecretsFound,
            r matches Ok(v) ==> v.0@ == self@.0 && record == Some(v.1),
    {
        match record {
            Some(s) => Ok((self.display_name, s)),
            None => Err(Error::NoSecretsFound),
        }
    }
}

} // verus!
