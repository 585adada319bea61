//! The header map of a parsed response: names unique, a later value for a
//! name replacing an earlier one.

use vstd::prelude::*;
use crate::bytes::bytes_eq;

verus! {

/// The map that inserting each pair of `s` in order, later over earlier, leaves.
pub open spec fn pairs_map(s: Seq<(Seq<u8>, Seq<u8>)>) -> Map<Seq<u8>, Seq<u8>>
    decreases s.len(),
{
    if s.len() == 0 {
        Map::empty()
    } else {
        pairs_map(s.drop_last()).insert(s.last().0, s.last().1)
    }
}

/// No two pairs of `s` share a name.
pub open spec fn names_unique(s: Seq<(Seq<u8>, Seq<u8>)>) -> bool {
    forall|i: int, j: int| 0 <= i < j < s.len() ==> s[i].0 != s[j].0
}

/// Each pair of a sequence yields one entry of its map: a name is present
/// exactly when some pair carries it, and its value is that of the last pair
/// that carries it.
pub proof fn lemma_last_write_wins(s: Seq<(Seq<u8>, Seq<u8>)>)
    ensures
        forall|k: Seq<u8>|
            pairs_map(s).contains_key(k) <==> exists|i: int| 0 <= i < s.len() && (#[trigger] s[i]).0 == k,
        forall|i: int|
            #![trigger s[i]]
            0 <= i < s.len() && (forall|j: int| i < j < s.len() ==> s[j].0 != s[i].0)
                ==> pairs_map(s)[s[i].0] == s[i].1,
    decreases s.len(),
{
    if s.len() > 0 {
        let t = s.drop_last();
        lemma_last_write_wins(t);
        assert(pairs_map(s) == pairs_map(t).insert(s.last().0, s.last().1));
        assert forall|k: Seq<u8>|
            pairs_map(s).contains_key(k) <==> exists|i: int| 0 <= i < s.len() && (#[trigger] s[i]).0 == k by {
            if pairs_map(s).contains_key(k) && k != s.last().0 {
                assert(pairs_map(t).contains_key(k));
                let i = choose|i: int| 0 <= i < t.len() && (#[trigger] t[i]).0 == k;
                assert(s[i] == t[i]);
            }
            if exists|i: int| 0 <= i < s.len() && (#[trigger] s[i]).0 == k {
                let i = choose|i: int| 0 <= i < s.len() && (#[trigger] s[i]).0 == k;
                if i < t.len() {
                    assert(t[i] == s[i]);
                }
            }
        }
        assert forall|i: int|
            #![trigger s[i]]
            0 <= i < s.len() && (forall|j: int| i < j < s.len() ==> s[j].0 != s[i].0)
                implies pairs_map(s)[s[i].0] == s[i].1 by {
            if i < t.len() {
                assert(t[i] == s[i]);
                assert forall|j: int| i < j < t.len() implies t[j].0 != t[i].0 by {
                    assert(t[j] == s[j]);
                }
                assert(s[s.len() - 1].0 != s[i].0);
            }
        }
    }
}

/// Giving a new value to the pair at `i` inserts that value under its name.
proof fn lemma_update_value(s: Seq<(Seq<u8>, Seq<u8>)>, i: int, v: Seq<u8>)
    requires
        names_unique(s),
        0 <= i < s.len(),
    ensures
        pairs_map(s.update(i, (s[i].0, v))) == pairs_map(s).insert(s[i].0, v),
    decreases s.len(),
{
    let u = s.update(i, (s[i].0, v));
    assert(u.drop_last() =~= if i == s.len() - 1 { s.drop_last() } else { s.drop_last().update(i, (s[i].0, v)) });
    if i == s.len() - 1 {
        assert(pairs_map(u) =~= pairs_map(s).insert(s[i].0, v));
    } else {
        lemma_update_value(s.drop_last(), i, v);
        assert(s.last().0 != s[i].0);
        assert(pairs_map(u) =~= pairs_map(s).insert(s[i].0, v));
    }
}

/// Header names with their values, each name at most once.
pub struct Headers {
    names: Vec<Vec<u8>>,
    values: Vec<Vec<u8>>,
}

impl Headers {
    /// The pairs as stored, in their order.
    pub closed spec fn pairs(&self) -> Seq<(Seq<u8>, Seq<u8>)> {
        Seq::new(self.names@.len(), |i: int| (self.names@[i]@, self.values@[i]@))
    }

    /// The stored pairs line up and no name repeats.
    pub closed spec fn wf(&self) -> bool {
        self.names@.len() == self.values@.len() && names_unique(self.pairs())
    }

    /// The header map that `self` holds.
    pub closed spec fn view(&self) -> Map<Seq<u8>, Seq<u8>> {
        pairs_map(self.pairs())
    }

    /// The number of distinct header names.
    pub closed spec fn spec_len(&self) -> nat {
        self.names@.len()
    }

    /// An empty map.
    pub fn new() -> (r: Headers)
        ensures
            r.wf(),
            r@ == Map::<Seq<u8>, Seq<u8>>::empty(),
            r.spec_len() == 0,
    {
        let r = Headers { names: Vec::new(), values: Vec::new() };
        assert(r.pairs() =~= Seq::<(Seq<u8>, Seq<u8>)>::empty());
        r
    }

    /// The position of `name` among the stored pairs.
    fn position(&self, name: &[u8]) -> (r: Option<usize>)
        requires
            self.wf(),
        ensures
            match r {
                Some(i) => i < self.spec_len() && self.pairs()[i as int].0 == name@,
                None => forall|i: int| 0 <= i < self.spec_len() ==> self.pairs()[i].0 != name@,
            },
    {
        let mut i: usize = 0;
        while i < self.names.len()
            invariant
                self.wf(),
                i <= self.names@.len(),
                forall|j: int| 0 <= j < i ==> self.pairs()[j].0 != name@,
            decreases self.names@.len() - i,
        {
            if bytes_eq(self.names[i].as_slice(), name) {
                return Some(i);
            }
            i = i + 1;
        }
        None
    }

    /// Sets the value of `name` to `value`, replacing any earlier value.
    pub fn insert(&mut self, name: Vec<u8>, value: Vec<u8>)
        requires
            old(self).wf(),
        ensures
            final(self).wf(),
            final(self)@ == old(self)@.insert(name@, value@),
    {
        let ghost old_pairs = self.pairs();
        proof {
            lemma_last_write_wins(old_pairs);
        }
        match self.position(name.as_slice()) {
            Some(i) => {
                let ghost v = value@;
                self.values[i] = value;
                proof {
                    lemma_update_value(old_pairs, i as int, v);
                    assert(self.pairs() =~= old_pairs.update(i as int, (old_pairs[i as int].0, v)));
                }
            },
            None => {
                let ghost n = name@;
                let ghost v = value@;
                self.names.push(name);
                self.values.push(value);
                proof {
                    assert(self.pairs() =~= old_pairs.push((n, v)));
                    assert(self.pairs().drop_last() =~= old_pairs);
                }
            },
        }
    }

    /// The value stored under `name`, if any.
    pub fn get(&self, name: &[u8]) -> (r: Option<&Vec<u8>>)
        requires
            self.wf(),
        ensures
            match r {
                Some(v) => self@.contains_key(name@) && self@[name@] == v@,
                None => !self@.contains_key(name@),
            },
    {
        proof {
            lemma_last_write_wins(self.pairs());
        }
        match self.position(name) {
            Some(i) => {
                assert(self.pairs()[i as int].1 == self.values@[i as int]@);
                Some(&self.values[i])
            },
            None => None,
        }
    }

    /// The number of distinct header names.
    pub fn len(&self) -> (r: usize)
        requires
            self.wf(),
        ensures
            r == self.spec_len(),
            r == self@.dom().len(),
    {
        proof {
            lemma_unique_len(self.pairs());
        }
        self.names.len()
    }

    /// The name stored at position `i`; `0..len()` walks every name once.
    pub fn name_at(&self, i: usize) -> (r: &Vec<u8>)
        requires
            self.wf(),
            i < self.spec_len(),
        ensures
            self@.contains_key(r@),
            forall|j: int| 0 <= j < self.spec_len() && j != i ==> self.pairs()[j].0 != r@,
    {
        proof {
            lemma_last_write_wins(self.pairs());
            assert(self.pairs()[i as int].0 == self.names@[i as int]@);
        }
        &self.names[i]
    }

    /// The value stored at position `i`, the one that belongs to `name_at(i)`.
    pub fn value_at(&self, i: usize) -> (r: &Vec<u8>)
        requires
            self.wf(),
            i < self.spec_len(),
        ensures
            self@[self.pairs()[i as int].0] == r@,
    {
        proof {
            lemma_last_write_wins(self.pairs());
            assert(self.pairs()[i as int].1 == self.values@[i as int]@);
        }
        &self.values[i]
    }
}

/// With names unique, the map has one entry per pair.
proof fn lemma_unique_len(s: Seq<(Seq<u8>, Seq<u8>)>)
    requires
        names_unique(s),
    ensures
        pairs_map(s).dom().len() == s.len(),
        pairs_map(s).dom().finite(),
    decreases s.len(),
{
    if s.len() > 0 {
        let t = s.drop_last();
        lemma_unique_len(t);
        lemma_last_write_wins(t);
        assert(!pairs_map(t).contains_key(s.last().0)) by {
            if pairs_map(t).contains_key(s.last().0) {
                let i = choose|i: int| 0 <= i < t.len() && (#[trigger] t[i]).0 == s.last().0;
                assert(s[i] == t[i]);
            }
        }
    }
}

} // verus!
