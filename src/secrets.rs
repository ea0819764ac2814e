//! The secret record: a map from field name to field value.

use vstd::prelude::*;
use vstd::string::*;
use vstd::utf8::{decode_utf8, encode_utf8};

verus! {

broadcast use vstd::utf8::encode_utf8_decode_utf8;

/// The reserved field name under which the first line of a secret is kept.
pub open spec fn password_key() -> Seq<char> {
    seq!['p', 'a', 's', 's', 'w', 'o', 'r', 'd']
}

/// The map that a list of pairs describes, a later pair overriding an
/// earlier one with the same name.
pub open spec fn map_of_pairs(pairs: Seq<(Seq<char>, Seq<char>)>) -> Map<Seq<char>, Seq<char>>
    decreases pairs.len(),
{
    if pairs.len() == 0 {
        Map::empty()
    } else {
        map_of_pairs(pairs.drop_last()).insert(pairs.last().0, pairs.last().1)
    }
}

/// The text of each pair of strings.
pub open spec fn pair_views(v: Seq<(String, String)>) -> Seq<(Seq<char>, Seq<char>)> {
    v.map_values(|p: (String, String)| (p.0@, p.1@))
}

/// No two pairs share a name.
pub open spec fn unique_names(pairs: Seq<(Seq<char>, Seq<char>)>) -> bool {
    forall|i: int, j: int| 0 <= i < j < pairs.len() ==> pairs[i].0 != pairs[j].0
}

/// The names of a list of pairs.
pub open spec fn names_of(pairs: Seq<(Seq<char>, Seq<char>)>) -> Set<Seq<char>> {
    Set::new(|k: Seq<char>| exists|i: int| 0 <= i < pairs.len() && pairs[i].0 == k)
}

/// The names in the map are those of the pairs.
pub proof fn lemma_map_of_pairs_dom(pairs: Seq<(Seq<char>, Seq<char>)>)
    ensures
        map_of_pairs(pairs).dom() == names_of(pairs),
    decreases pairs.len(),
{
    if pairs.len() > 0 {
        let init = pairs.drop_last();
        lemma_map_of_pairs_dom(init);
        assert forall|k: Seq<char>| #[trigger] names_of(pairs).contains(k) implies map_of_pairs(
            pairs,
        ).dom().contains(k) by {
            let i = choose|i: int| 0 <= i < pairs.len() && pairs[i].0 == k;
            if i < pairs.len() - 1 {
                assert(init[i].0 == k);
                assert(names_of(init).contains(k));
            }
        }
        assert forall|k: Seq<char>| #[trigger] map_of_pairs(pairs).dom().contains(k) implies names_of(
            pairs,
        ).contains(k) by {
            if k != pairs.last().0 {
                assert(names_of(init).contains(k));
                let i = choose|i: int| 0 <= i < init.len() && init[i].0 == k;
                assert(pairs[i].0 == k);
            } else {
                assert(pairs[pairs.len() - 1].0 == k);
            }
        }
        assert(map_of_pairs(pairs).dom() =~= names_of(pairs));
    } else {
        assert(map_of_pairs(pairs).dom() =~= names_of(pairs));
    }
}

/// Where names are unique, each pair's value is the map's value at its name.
pub proof fn lemma_map_of_pairs_at(pairs: Seq<(Seq<char>, Seq<char>)>, i: int)
    requires
        unique_names(pairs),
        0 <= i < pairs.len(),
    ensures
        map_of_pairs(pairs).contains_key(pairs[i].0),
        map_of_pairs(pairs)[pairs[i].0] == pairs[i].1,
    decreases pairs.len(),
{
    if i < pairs.len() - 1 {
        let init = pairs.drop_last();
        assert(init[i] == pairs[i]);
        lemma_map_of_pairs_at(init, i);
    }
}

/// Replacing the value of one pair, where names are unique, updates the map
/// at that name.
pub proof fn lemma_map_of_pairs_update(pairs: Seq<(Seq<char>, Seq<char>)>, i: int, v: Seq<char>)
    requires
        unique_names(pairs),
        0 <= i < pairs.len(),
    ensures
        unique_names(pairs.update(i, (pairs[i].0, v))),
        map_of_pairs(pairs.update(i, (pairs[i].0, v))) == map_of_pairs(pairs).insert(pairs[i].0, v),
{
    let k = pairs[i].0;
    let upd = pairs.update(i, (k, v));
    assert(unique_names(upd));
    lemma_map_of_pairs_dom(pairs);
    lemma_map_of_pairs_dom(upd);
    assert(names_of(upd) =~= names_of(pairs)) by {
        assert forall|n: Seq<char>| names_of(pairs).contains(n) implies #[trigger] names_of(
            upd,
        ).contains(n) by {
            let j = choose|j: int| 0 <= j < pairs.len() && pairs[j].0 == n;
            assert(upd[j].0 == n);
        }
        assert forall|n: Seq<char>| names_of(upd).contains(n) implies #[trigger] names_of(
            pairs,
        ).contains(n) by {
            let j = choose|j: int| 0 <= j < upd.len() && upd[j].0 == n;
            assert(pairs[j].0 == n);
        }
    }
    let m_old = map_of_pairs(pairs);
    let m_new = map_of_pairs(upd);
    assert forall|n: Seq<char>| #[trigger] m_new.contains_key(n) implies m_new[n] == m_old.insert(
        k,
        v,
    )[n] by {
        let j = choose|j: int| 0 <= j < upd.len() && upd[j].0 == n;
        lemma_map_of_pairs_at(upd, j);
        if j != i {
            lemma_map_of_pairs_at(pairs, j);
        } else {
            assert(upd[i] == (k, v));
        }
    }
    assert(m_new =~= m_old.insert(k, v));
}

/// A name that no pair carries is not in the map.
pub proof fn lemma_map_of_pairs_absent(pairs: Seq<(Seq<char>, Seq<char>)>, k: Seq<char>)
    requires
        forall|i: int| 0 <= i < pairs.len() ==> pairs[i].0 != k,
    ensures
        !map_of_pairs(pairs).contains_key(k),
{
    lemma_map_of_pairs_dom(pairs);
}

/// Whether two strings hold the same text.
pub fn same_text(a: &str, b: &str) -> (r: bool)
    ensures
        r == (a@ == b@),
{
    let ab = a.as_bytes();
    let bb = b.as_bytes();
    if ab.len() != bb.len() {
        return false;
    }
    let mut i: usize = 0;
    while i < ab.len()
        invariant
            ab@ == a.spec_bytes(),
            bb@ == b.spec_bytes(),
            ab.len() == bb.len(),
            0 <= i <= ab.len(),
            forall|j: int| 0 <= j < i ==> ab@[j] == bb@[j],
        decreases ab.len() - i,
    {
        if ab[i] != bb[i] {
            return false;
        }
        i = i + 1;
    }
    assert(ab@ =~= bb@);
    assert(decode_utf8(encode_utf8(a@)) == a@);
    assert(decode_utf8(encode_utf8(b@)) == b@);
    true
}

/// A parsed secret: each field name, such as `password` or `username`, with
/// its value.
pub struct Secrets {
    fields: Vec<(String, String)>,
}

impl View for Secrets {
    type V = Map<Seq<char>, Seq<char>>;

    closed spec fn view(&self) -> Map<Seq<char>, Seq<char>> {
        map_of_pairs(pair_views(self.fields@))
    }
}

impl Secrets {
    #[verifier::type_invariant]
    spec fn names_unique(&self) -> bool {
        unique_names(pair_views(self.fields@))
    }

    /// A record with no field.
    pub fn empty() -> (r: Secrets)
        ensures
            r@ == Map::<Seq<char>, Seq<char>>::empty(),
    {
        let r = Secrets { fields: Vec::new() };
        assert(pair_views(r.fields@) =~= Seq::empty());
        r
    }

    /// Sets the field `id` to `value`, replacing any earlier value.
    pub(crate) fn insert(&mut self, id: String, value: String)
        ensures
            final(self)@ == old(self)@.insert(id@, value@),
    {
        proof {
            use_type_invariant(&*self);
        }
        let mut fields: Vec<(String, String)> = Vec::new();
        std::mem::swap(&mut fields, &mut self.fields);
        let ghost pv = pair_views(fields@);
        let mut i: usize = 0;
        while i < fields.len()
            invariant
                pv == pair_views(fields@),
                map_of_pairs(pv) == old(self)@,
                unique_names(pv),
                0 <= i <= fields.len(),
                forall|j: int| 0 <= j < i ==> pv[j].0 != id@,
            decreases fields.len() - i,
        {
            if same_text(fields[i].0.as_str(), id.as_str()) {
                proof {
                    lemma_map_of_pairs_update(pv, i as int, value@);
                }
                let ghost new_id = id@;
                assert(new_id == pv[i as int].0);
                fields.set(i, (id, value));
                assert(pair_views(fields@) =~= pv.update(i as int, (pv[i as int].0, value@)));
                self.fields = fields;
                assert(self@ == map_of_pairs(pv).insert(new_id, value@));
                return;
            }
            i = i + 1;
        }
        let ghost new_id = id@;
        fields.push((id, value));
        assert(pair_views(fields@) =~= pv.push((new_id, value@)));
        assert(pair_views(fields@).drop_last() =~= pv);
        assert(unique_names(pair_views(fields@)));
        self.fields = fields;
    }

    /// The record with the given fields, where a later pair overrides an
    /// earlier pair of the same name.
    pub fn new(items: Vec<(String, String)>) -> (r: Secrets)
        ensures
            r@ == map_of_pairs(pair_views(items@)),
    {
        let mut r = Secrets::empty();
        let mut i: usize = 0;
        while i < items.len()
            invariant
                0 <= i <= items.len(),
                r@ == map_of_pairs(pair_views(items@.subrange(0, i as int))),
            decreases items.len() - i,
        {
            let id = items[i].0.clone();
            let value = items[i].1.clone();
            r.insert(id, value);
            assert(pair_views(items@.subrange(0, i + 1)).drop_last() =~= pair_views(
                items@.subrange(0, i as int),
            ));
            i = i + 1;
        }
        assert(items@.subrange(0, i as int) =~= items@);
        r
    }

    /// The value of the field `id`, if the record has one.
    pub fn get(&self, id: &str) -> (r: Option<&String>)
        ensures
            r is Some <==> self@.contains_key(id@),
            r matches Some(v) ==> v@ == self@[id@],
    {
        proof {
            use_type_invariant(self);
        }
        let ghost pv = pair_views(self.fields@);
        let mut i: usize = 0;
        while i < self.fields.len()
            invariant
                pv == pair_views(self.fields@),
                unique_names(pv),
                0 <= i <= self.fields.len(),
                forall|j: int| 0 <= j < i ==> pv[j].0 != id@,
            decreases self.fields.len() - i,
        {
            if same_text(self.fields[i].0.as_str(), id) {
                proof {
                    lemma_map_of_pairs_at(pv, i as int);
                }
                return Some(&self.fields[i].1);
            }
            i = i + 1;
        }
        proof {
            lemma_map_of_pairs_absent(pv, id@);
        }
        None
    }

    /// Every field of the record, each once, in no particular order.
    pub fn iter(&self) -> (r: &[(String, String)])
        ensures
            map_of_pairs(pair_views(r@)) == self@,
            unique_names(pair_views(r@)),
    {
        proof {
            use_type_invariant(self);
        }
        self.fields.as_slice()
    }

    /// Whether the record has no field.
    pub fn is_empty(&self) -> (r: bool)
        ensures
            r <==> self@ == Map::<Seq<char>, Seq<char>>::empty(),
    {
        proof {
            use_type_invariant(self);
        }
        if self.fields.len() == 0 {
            assert(pair_views(self.fields@) =~= Seq::empty());
            true
        } else {
            proof {
                lemma_map_of_pairs_at(pair_views(self.fields@), 0);
                assert(self@.contains_key(pair_views(self.fields@)[0].0));
            }
            false
        }
    }
}

} // verus!
