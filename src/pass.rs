//! The password store's entries: the files under the store's directory
//! that end in `.gpg`, named by their path below it without the ending.

use vstd::prelude::*;
use vstd::string::*;
use vstd::utf8::{decode_utf8, encode_utf8};

use crate::secrets::same_text;
use crate::select::{starts_with, strip_prefix, strs};

verus! {

broadcast use vstd::utf8::encode_utf8_decode_utf8;

/// The ending of a store file's name.
pub open spec fn gpg_suffix() -> Seq<char> {
    seq!['.', 'g', 'p', 'g']
}

/// Whether `s` ends with `p`.
pub open spec fn ends_with(s: Seq<char>, p: Seq<char>) -> bool {
    p.len() <= s.len() && s.subrange(s.len() - p.len(), s.len() as int) == p
}

/// The entry that a file's path names under the store's directory `root`
/// (which ends in a slash): the path without `root` and without the ending,
/// where the path has both, something between them, and no further slash
/// right after `root`.
pub open spec fn entry_of(root: Seq<char>, path: Seq<char>) -> Option<Seq<char>> {
    if starts_with(path, root) && ends_with(path, gpg_suffix()) && path.len() > root.len()
        + gpg_suffix().len() && path[root.len() as int] != '/' {
        Some(path.subrange(root.len() as int, path.len() - gpg_suffix().len()))
    } else {
        None
    }
}

/// Whether `a` comes before `b` byte by byte, a proper prefix first.
pub open spec fn bytes_lt(a: Seq<u8>, b: Seq<u8>) -> bool
    decreases a.len(),
{
    if a.len() == 0 {
        b.len() > 0
    } else if b.len() == 0 {
        false
    } else if a[0] != b[0] {
        a[0] < b[0]
    } else {
        bytes_lt(a.drop_first(), b.drop_first())
    }
}

/// The order of strings: that of their UTF-8 bytes.
pub open spec fn text_lt(a: Seq<char>, b: Seq<char>) -> bool {
    bytes_lt(encode_utf8(a), encode_utf8(b))
}

/// Each text comes before every later one: the list is sorted and has no
/// repeat.
pub open spec fn strictly_sorted(s: Seq<Seq<char>>) -> bool {
    forall|i: int, j: int| 0 <= i < j < s.len() ==> text_lt(#[trigger] s[i], #[trigger] s[j])
}

proof fn lemma_bytes_lt_transitive(a: Seq<u8>, b: Seq<u8>, c: Seq<u8>)
    requires
        bytes_lt(a, b),
        bytes_lt(b, c),
    ensures
        bytes_lt(a, c),
    decreases a.len(),
{
    if a.len() > 0 && b.len() > 0 && c.len() > 0 && a[0] == b[0] && b[0] == c[0] {
        lemma_bytes_lt_transitive(a.drop_first(), b.drop_first(), c.drop_first());
    }
}

proof fn lemma_bytes_lt_total(a: Seq<u8>, b: Seq<u8>)
    requires
        a != b,
    ensures
        bytes_lt(a, b) || bytes_lt(b, a),
    decreases a.len(),
{
    if a.len() == 0 {
        assert(b.len() > 0) by {
            if b.len() == 0 {
                assert(a =~= b);
            }
        }
    } else if b.len() > 0 && a[0] == b[0] {
        assert(a.drop_first() != b.drop_first()) by {
            if a.drop_first() == b.drop_first() {
                assert(a =~= seq![a[0]] + a.drop_first());
                assert(b =~= seq![b[0]] + b.drop_first());
            }
        }
        lemma_bytes_lt_total(a.drop_first(), b.drop_first());
    }
}

/// Two different texts are ordered one way or the other.
proof fn lemma_text_lt_total(a: Seq<char>, b: Seq<char>)
    requires
        a != b,
    ensures
        text_lt(a, b) || text_lt(b, a),
{
    assert(decode_utf8(encode_utf8(a)) == a);
    assert(decode_utf8(encode_utf8(b)) == b);
    lemma_bytes_lt_total(encode_utf8(a), encode_utf8(b));
}

/// Byte strings that agree up to `i` compare as what follows.
proof fn lemma_bytes_lt_skip(a: Seq<u8>, b: Seq<u8>, i: int)
    requires
        0 <= i <= a.len(),
        i <= b.len(),
        a.subrange(0, i) == b.subrange(0, i),
    ensures
        bytes_lt(a, b) == bytes_lt(a.subrange(i, a.len() as int), b.subrange(i, b.len() as int)),
    decreases i,
{
    if i > 0 {
        assert(a[0] == a.subrange(0, i)[0]);
        assert(b[0] == b.subrange(0, i)[0]);
        assert(a.drop_first().subrange(0, i - 1) =~= a.subrange(0, i).drop_first());
        assert(b.drop_first().subrange(0, i - 1) =~= b.subrange(0, i).drop_first());
        lemma_bytes_lt_skip(a.drop_first(), b.drop_first(), i - 1);
        assert(a.drop_first().subrange(i - 1, a.len() - 1) =~= a.subrange(i, a.len() as int));
        assert(b.drop_first().subrange(i - 1, b.len() - 1) =~= b.subrange(i, b.len() as int));
    } else {
        assert(a.subrange(0, a.len() as int) =~= a);
        assert(b.subrange(0, b.len() as int) =~= b);
    }
}

/// Whether `a` comes before `b`, as `text_lt` orders them.
pub fn text_less(a: &str, b: &str) -> (r: bool)
    ensures
        r == text_lt(a@, b@),
{
    let ab = a.as_bytes();
    let bb = b.as_bytes();
    let mut i: usize = 0;
    while i < ab.len() && i < bb.len() && ab[i] == bb[i]
        invariant
            ab@ == encode_utf8(a@),
            bb@ == encode_utf8(b@),
            0 <= i <= ab.len(),
            i <= bb.len(),
            ab@.subrange(0, i as int) == bb@.subrange(0, i as int),
        decreases ab.len() - i,
    {
        assert(ab@.subrange(0, i + 1) =~= ab@.subrange(0, i as int).push(ab@[i as int]));
        assert(bb@.subrange(0, i + 1) =~= bb@.subrange(0, i as int).push(bb@[i as int]));
        i = i + 1;
    }
    proof {
        lemma_bytes_lt_skip(ab@, bb@, i as int);
    }
    let ghost ra = ab@.subrange(i as int, ab@.len() as int);
    let ghost rb = bb@.subrange(i as int, bb@.len() as int);
    if i == ab.len() {
        i < bb.len()
    } else if i == bb.len() {
        false
    } else {
        assert(ra[0] == ab@[i as int] && rb[0] == bb@[i as int]);
        ab[i] < bb[i]
    }
}

/// Adds `x` to a sorted list of distinct strings, where it is not there yet.
fn insert_sorted(v: &mut Vec<String>, x: String)
    requires
        strictly_sorted(strs(old(v)@)),
    ensures
        strictly_sorted(strs(final(v)@)),
        forall|e: Seq<char>| strs(final(v)@).contains(e) <==> (strs(old(v)@).contains(e) || e == x@),
{
    let ghost s = strs(v@);
    let mut k: usize = 0;
    while k < v.len() && text_less(v[k].as_str(), x.as_str())
        invariant
            s == strs(v@),
            strictly_sorted(s),
            0 <= k <= v.len(),
            forall|j: int| 0 <= j < k ==> text_lt(#[trigger] s[j], x@),
        decreases v.len() - k,
    {
        k = k + 1;
    }
    if k < v.len() && same_text(v[k].as_str(), x.as_str()) {
        assert(s[k as int] == x@);
        return;
    }
    proof {
        if k < v.len() {
            lemma_text_lt_total(s[k as int], x@);
        }
        assert forall|j: int| k <= j < s.len() implies text_lt(x@, #[trigger] s[j]) by {
            if j > k {
                lemma_bytes_lt_transitive(
                    encode_utf8(x@),
                    encode_utf8(s[k as int]),
                    encode_utf8(s[j]),
                );
            }
        }
    }
    let ghost xv = x@;
    v.insert(k, x);
    let ghost t = strs(v@);
    assert(t =~= s.insert(k as int, xv));
    assert forall|i: int, j: int| 0 <= i < j < t.len() implies text_lt(
        #[trigger] t[i],
        #[trigger] t[j],
    ) by {
        if j < k {
        } else if j == k {
        } else if i < k {
            lemma_bytes_lt_transitive(
                encode_utf8(s[i]),
                encode_utf8(xv),
                encode_utf8(s[j - 1]),
            );
        } else if i == k {
        } else {
            assert(t[i] == s[i - 1] && t[j] == s[j - 1]);
        }
    }
    assert forall|e: Seq<char>| t.contains(e) <==> (s.contains(e) || e == xv) by {
        if t.contains(e) {
            let i = choose|i: int| 0 <= i < t.len() && t[i] == e;
            if i < k {
                assert(s[i] == e);
            } else if i > k {
                assert(s[i - 1] == e);
            }
        }
        if s.contains(e) {
            let i = choose|i: int| 0 <= i < s.len() && s[i] == e;
            if i < k {
                assert(t[i] == e);
            } else {
                assert(t[i + 1] == e);
            }
        }
        if e == xv {
            assert(t[k as int] == e);
        }
    }
}

/// The entry that a file's path names under the store's directory `root`,
/// as `entry_of` describes it.
pub fn entry_of_path(root: &str, path: &str) -> (r: Option<String>)
    ensures
        match r {
            Some(e) => entry_of(root@, path@) == Some(e@),
            None => entry_of(root@, path@) is None,
        },
{
    let rest = match strip_prefix(path, root) {
        Some(rest) => rest,
        None => {
            return None;
        },
    };
    let ghost m = root@.len() as int;
    let ghost n = path@.len() as int;
    let k = rest.as_str().unicode_len();
    assert(rest@ == path@.subrange(m, n));
    if k <= 4 {
        return None;
    }
    assert(rest@[0] == path@[m]);
    if rest.as_str().get_char(0) == '/' {
        return None;
    }
    let ends = rest.as_str().get_char(k - 4) == '.' && rest.as_str().get_char(k - 3) == 'g'
        && rest.as_str().get_char(k - 2) == 'p' && rest.as_str().get_char(k - 1) == 'g';
    assert(path@.subrange(n - 4, n) =~= rest@.subrange(k - 4, k as int));
    if !ends {
        assert(path@.subrange(n - 4, n) != gpg_suffix()) by {
            if path@.subrange(n - 4, n) == gpg_suffix() {
                assert(rest@.subrange(k - 4, k as int)[0] == '.');
                assert(rest@.subrange(k - 4, k as int)[1] == 'g');
                assert(rest@.subrange(k - 4, k as int)[2] == 'p');
                assert(rest@.subrange(k - 4, k as int)[3] == 'g');
            }
        }
        return None;
    }
    assert(path@.subrange(n - 4, n) =~= gpg_suffix());
    let e = String::from_str(rest.as_str().substring_char(0, k - 4));
    assert(e@ =~= path@.subrange(m, n - 4));
    Some(e)
}

/// The entry that a path names, if it was read and names one.
pub open spec fn path_entry(root: Seq<char>, path: Option<String>) -> Option<Seq<char>> {
    match path {
        Some(p) => entry_of(root, p@),
        None => None,
    }
}

/// The entries that some path names.
pub open spec fn entries_named(root: Seq<char>, paths: Seq<Option<String>>) -> Set<Seq<char>> {
    Set::new(
        |e: Seq<char>|
            exists|i: int| 0 <= i < paths.len() && path_entry(root, #[trigger] paths[i]) == Some(e),
    )
}

/// The entries that the paths name under `root`, sorted, each once; a path
/// that could not be read (`None`) or names no entry is left out.
pub fn entries_from_paths(root: &str, paths: Vec<Option<String>>) -> (r: Vec<String>)
    ensures
        strictly_sorted(strs(r@)),
        forall|e: Seq<char>| strs(r@).contains(e) <==> entries_named(root@, paths@).contains(e),
{
    let mut r: Vec<String> = Vec::new();
    let mut i: usize = 0;
    while i < paths.len()
        invariant
            0 <= i <= paths.len(),
            strictly_sorted(strs(r@)),
            forall|e: Seq<char>|
                strs(r@).contains(e) <==> entries_named(root@, paths@.subrange(0, i as int)).contains(
                    e,
                ),
        decreases paths.len() - i,
    {
        let ghost before = paths@.subrange(0, i as int);
        let ghost after = paths@.subrange(0, i + 1);
        assert forall|e: Seq<char>| entries_named(root@, after).contains(e) <==> (entries_named(
            root@,
            before,
        ).contains(e) || path_entry(root@, paths@[i as int]) == Some(e)) by {
            if entries_named(root@, after).contains(e) {
                let j = choose|j: int|
                    0 <= j < after.len() && path_entry(root@, #[trigger] after[j]) == Some(e);
                if j < i {
                    assert(before[j] == after[j]);
                }
            }
            if entries_named(root@, before).contains(e) {
                let j = choose|j: int|
                    0 <= j < before.len() && path_entry(root@, #[trigger] before[j]) == Some(e);
                assert(after[j] == before[j]);
            }
            if path_entry(root@, paths@[i as int]) == Some(e) {
                assert(after[i as int] == paths@[i as int]);
            }
        }
        match &paths[i] {
            Some(p) => match entry_of_path(root, p.as_str()) {
                Some(e) => {
                    insert_sorted(&mut r, e);
                },
                None => {},
            },
            None => {},
        }
        i = i + 1;
    }
    assert(paths@.subrange(0, i as int) =~= paths@);
    r
}

/// Relies on `dirs::home_dir`: the user's home directory, where it is known
/// and is UTF-8.
#[verifier::external_body]
fn home_dir() -> (r: Option<String>) {
    match dirs::home_dir() {
        Some(path) => path.to_str().map(String::from),
        None => None,
    }
}

/// Relies on `glob::glob`: the paths that match `pattern`, each `None` where
/// it could not be read or is not UTF-8; `None` where the pattern is invalid.
#[verifier::external_body]
fn glob_paths(pattern: &str) -> (r: Option<Vec<Option<String>>>) {
    let paths = match glob::glob(pattern) {
        Ok(paths) => paths,
        Err(_) => return None,
    };
    let mut r = Vec::new();
    for p in paths {
        r.push(match p {
            Ok(path) => path.to_str().map(String::from),
            Err(_) => None,
        });
    }
    Some(r)
}

/// The store's directory under the home directory `home`, with a slash at
/// its end, and the pattern of the files in it and below it that hold
/// secrets.
pub fn store_glob(home: &str) -> (r: (String, String))
    ensures
        r.0@ == (if home@.len() > 0 && home@.last() == '/' {
            home@ + ".password-store/"@
        } else {
            home@ + "/.password-store/"@
        }),
        r.1@ == r.0@ + "**/*.gpg"@,
{
    let n = home.unicode_len();
    let root = if n > 0 && home.get_char(n - 1) == '/' {
        String::from_str(home).concat(".password-store/")
    } else {
        String::from_str(home).concat("/.password-store/")
    };
    let pattern = String::from_str(root.as_str()).concat("**/*.gpg");
    (root, pattern)
}

/// The store's entries, sorted, each once. The store is the directory
/// `.password-store` in the user's home; where the home is unknown, or the
/// store cannot be searched, there is none.
pub fn list_entries() -> (r: Vec<String>)
    ensures
        strictly_sorted(strs(r@)),
        forall|i: int| 0 <= i < r.len() ==> r@[i]@.len() > 0,
{
    let home = match home_dir() {
        Some(h) => h,
        None => {
            return Vec::new();
        },
    };
    let (root, pattern) = store_glob(home.as_str());
    match glob_paths(pattern.as_str()) {
        Some(paths) => {
            let r = entries_from_paths(root.as_str(), paths);
            assert forall|i: int| 0 <= i < r.len() implies r@[i]@.len() > 0 by {
                assert(strs(r@).contains(strs(r@)[i]));
                let e = strs(r@)[i];
                assert(entries_named(root@, paths@).contains(e));
            }
            r
        },
        None => Vec::new(),
    }
}

} // verus!
