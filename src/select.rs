//! Picking one secret out of the store's entries: the pickers, and the
//! filter that scopes the entries to a prefix.

use vstd::prelude::*;
use vstd::string::*;

use crate::secrets::same_text;

pub mod dmenu;
pub mod rofi;

verus! {

/// Why a selection gave no secret.
#[derive(Clone, Copy, Debug, PartialEq, Eq, Structural)]
pub enum Error {
    /// No entry matched the prefix, or the chosen entry could not be loaded.
    NoSecretsFound,
    /// The user chose nothing.
    NothingSelected,
}

/// The text of each string.
pub open spec fn strs(v: Seq<String>) -> Seq<Seq<char>> {
    v.map_values(|s: String| s@)
}

/// Whether `s` begins with `p`.
pub open spec fn starts_with(s: Seq<char>, p: Seq<char>) -> bool {
    p.len() <= s.len() && s.subrange(0, p.len() as int) == p
}

/// The entries that begin with `prefix`, in their order, each without the
/// prefix.
pub open spec fn candidates_of(prefix: Seq<char>, entries: Seq<Seq<char>>) -> Seq<Seq<char>>
    decreases entries.len(),
{
    if entries.len() == 0 {
        Seq::empty()
    } else {
        let r = candidates_of(prefix, entries.drop_last());
        let e = entries.last();
        if starts_with(e, prefix) {
            r.push(e.subrange(prefix.len() as int, e.len() as int))
        } else {
            r
        }
    }
}

/// A picker that shows candidates to the user, one per line, and hands back
/// the one chosen.
pub trait SelectTool {
    /// The candidate the user chose, or `None` where the user chose nothing
    /// or the picker failed.
    fn select(&self, entries: Vec<String>) -> (r: Option<String>)
        ensures
            r matches Some(s) ==> strs(entries@).contains(s@),
    ;
}

/// `s` without `p` in front, where it begins with `p`.
pub fn strip_prefix(s: &str, p: &str) -> (r: Option<String>)
    ensures
        r is Some <==> starts_with(s@, p@),
        r matches Some(t) ==> t@ == s@.subrange(p@.len() as int, s@.len() as int),
{
    let n = s.unicode_len();
    let m = p.unicode_len();
    if m > n {
        return None;
    }
    let mut i: usize = 0;
    while i < m
        invariant
            n == s@.len(),
            m == p@.len(),
            m <= n,
            0 <= i <= m,
            forall|j: int| 0 <= j < i ==> s@[j] == p@[j],
        decreases m - i,
    {
        if s.get_char(i) != p.get_char(i) {
            assert(s@.subrange(0, m as int)[i as int] != p@[i as int]);
            return None;
        }
        i = i + 1;
    }
    assert(s@.subrange(0, m as int) =~= p@);
    Some(String::from_str(s.substring_char(m, n)))
}

/// Keeps the entries that begin with `prefix`, in their order, and removes
/// the prefix from each.
pub fn filter_and_remove_prefix(prefix: &str, entries: Vec<String>) -> (r: Vec<String>)
    ensures
        strs(r@) == candidates_of(prefix@, strs(entries@)),
{
    let mut r: Vec<String> = Vec::new();
    let mut i: usize = 0;
    while i < entries.len()
        invariant
            0 <= i <= entries.len(),
            strs(r@) == candidates_of(prefix@, strs(entries@.subrange(0, i as int))),
        decreases entries.len() - i,
    {
        let ghost done = strs(entries@.subrange(0, i as int));
        assert(strs(entries@.subrange(0, i + 1)).drop_last() =~= done);
        assert(strs(entries@.subrange(0, i + 1)).last() == entries@[i as int]@);
        match strip_prefix(entries[i].as_str(), prefix) {
            Some(t) => {
                r.push(t);
                assert(strs(r@) =~= candidates_of(prefix@, done).push(
                    entries@[i as int]@.subrange(prefix@.len() as int, entries@[i as int]@.len() as int),
                ));
            },
            None => {},
        }
        i = i + 1;
    }
    assert(entries@.subrange(0, i as int) =~= entries@);
    r
}

/// A picker's printed output without the line feed that ends it, if any.
pub open spec fn without_final_newline(s: Seq<char>) -> Seq<char> {
    if s.len() > 0 && s.last() == '\n' {
        s.drop_last()
    } else {
        s
    }
}

/// The candidate that a picker printed, one line ending in a line feed or
/// not; `None` where it printed nothing, or what it printed is no
/// candidate.
pub fn choice_from_output(output: &str, entries: &Vec<String>) -> (r: Option<String>)
    ensures
        r is Some <==> (output@.len() > 0 && strs(entries@).contains(
            without_final_newline(output@),
        )),
        r matches Some(s) ==> s@ == without_final_newline(output@),
{
    let n = output.unicode_len();
    if n == 0 {
        return None;
    }
    let line = if n > 0 && output.get_char(n - 1) == '\n' {
        output.substring_char(0, n - 1)
    } else {
        output
    };
    assert(line@ =~= without_final_newline(output@));
    let mut i: usize = 0;
    while i < entries.len()
        invariant
            output@.len() > 0,
            line@ == without_final_newline(output@),
            0 <= i <= entries.len(),
            forall|j: int| 0 <= j < i ==> strs(entries@)[j] != line@,
        decreases entries.len() - i,
    {
        if same_text(entries[i].as_str(), line) {
            assert(strs(entries@)[i as int] == line@);
            return Some(entries[i].clone());
        }
        i = i + 1;
    }
    None
}

/// With an empty prefix every entry is a candidate, unchanged.
pub proof fn lemma_empty_prefix_keeps_all(entries: Seq<Seq<char>>)
    ensures
        candidates_of(Seq::empty(), entries) == entries,
    decreases entries.len(),
{
    if entries.len() > 0 {
        lemma_empty_prefix_keeps_all(entries.drop_last());
        let e = entries.last();
        assert(e.subrange(0, 0) =~= Seq::<char>::empty());
        assert(e.subrange(0, e.len() as int) =~= e);
        assert(entries.drop_last().push(e) =~= entries);
    }
}

/// Filtering keeps the entries' order: the candidates of two lists one after
/// the other are the candidates of the first, then those of the second.
pub proof fn lemma_candidates_keep_order(
    prefix: Seq<char>,
    a: Seq<Seq<char>>,
    b: Seq<Seq<char>>,
)
    ensures
        candidates_of(prefix, a + b) == candidates_of(prefix, a) + candidates_of(prefix, b),
    decreases b.len(),
{
    if b.len() == 0 {
        assert(a + b =~= a);
        assert(candidates_of(prefix, a) + candidates_of(prefix, b) =~= candidates_of(prefix, a));
    } else {
        lemma_candidates_keep_order(prefix, a, b.drop_last());
        assert((a + b).drop_last() =~= a + b.drop_last());
        assert((a + b).last() == b.last());
        let e = b.last();
        if starts_with(e, prefix) {
            assert(candidates_of(prefix, a) + candidates_of(prefix, b.drop_last()).push(
                e.subrange(prefix.len() as int, e.len() as int),
            ) =~= (candidates_of(prefix, a) + candidates_of(prefix, b.drop_last())).push(
                e.subrange(prefix.len() as int, e.len() as int),
            ));
        }
    }
}

/// Each candidate, with the prefix put back in front, is one of the entries.
pub proof fn lemma_candidate_is_entry(prefix: Seq<char>, entries: Seq<Seq<char>>, c: Seq<char>)
    requires
        candidates_of(prefix, entries).contains(c),
    ensures
        entries.contains(prefix + c),
    decreases entries.len(),
{
    let init = entries.drop_last();
    let e = entries.last();
    let r = candidates_of(prefix, init);
    if r.contains(c) {
        lemma_candidate_is_entry(prefix, init, c);
        let k = choose|k: int| 0 <= k < init.len() && init[k] == prefix + c;
        assert(entries[k] == prefix + c);
    } else {
        assert(starts_with(e, prefix));
        let k = choose|k: int| 0 <= k < r.push(e.subrange(prefix.len() as int, e.len() as int)).len()
            && r.push(e.subrange(prefix.len() as int, e.len() as int))[k] == c;
        assert(k == r.len());
        assert(prefix + c =~= e);
        assert(entries[entries.len() - 1] == prefix + c);
    }
}

} // verus!
