//! The environment of a session or of a run: a mapping from variable
//! name to value, stored as an association list with unique keys and
//! specified as a `Map<Seq<char>, Seq<char>>`.

use vstd::prelude::*;

verus! {

/// The mathematical contents of an association list: later entries win.
pub open spec fn env_map_of(s: Seq<(String, String)>) -> Map<Seq<char>, Seq<char>>
    decreases s.len(),
{
    if s.len() == 0 {
        Map::empty()
    } else {
        env_map_of(s.drop_last()).insert(s.last().0@, s.last().1@)
    }
}

/// An environment: variable names to values.
pub struct EnvMap {
    pairs: Vec<(String, String)>,
}

impl View for EnvMap {
    type V = Map<Seq<char>, Seq<char>>;

    closed spec fn view(&self) -> Map<Seq<char>, Seq<char>> {
        env_map_of(self.pairs@)
    }
}

proof fn lemma_env_map_of_contains(s: Seq<(String, String)>, k: Seq<char>)
    ensures
        env_map_of(s).contains_key(k) <==> exists|i: int| 0 <= i < s.len() && s[i].0@ == k,
    decreases s.len(),
{
    if s.len() > 0 {
        lemma_env_map_of_contains(s.drop_last(), k);
        if s.last().0@ != k && env_map_of(s).contains_key(k) {
            let i = choose|i: int| 0 <= i < s.drop_last().len() && s.drop_last()[i].0@ == k;
            assert(s[i].0@ == k);
        }
        if exists|i: int| 0 <= i < s.len() && s[i].0@ == k {
            let i = choose|i: int| 0 <= i < s.len() && s[i].0@ == k;
            if i < s.len() - 1 {
                assert(s.drop_last()[i].0@ == k);
            }
        }
    }
}

proof fn lemma_env_map_of_at(s: Seq<(String, String)>, i: int)
    requires
        0 <= i < s.len(),
        forall|p: int, q: int| 0 <= p < q < s.len() ==> s[p].0@ != s[q].0@,
    ensures
        env_map_of(s).contains_key(s[i].0@),
        env_map_of(s)[s[i].0@] == s[i].1@,
    decreases s.len(),
{
    lemma_env_map_of_contains(s, s[i].0@);
    if i < s.len() - 1 {
        assert(s.drop_last()[i] == s[i]);
        lemma_env_map_of_at(s.drop_last(), i);
        assert(s.last().0@ != s[i].0@);
    }
}

impl EnvMap {
    /// The stored entries, in insertion order.
    pub closed spec fn pairs_seq(&self) -> Seq<(String, String)> {
        self.pairs@
    }

    /// Well-formed: no variable name occurs twice.
    pub open spec fn wf(&self) -> bool {
        forall|i: int, j: int|
            0 <= i < j < self.pairs_seq().len() ==> self.pairs_seq()[i].0@ != self.pairs_seq()[j].0@
    }

    /// Each stored entry is in the map, and the map holds nothing else.
    pub proof fn lemma_entries_view(&self)
        requires
            self.wf(),
        ensures
            forall|i: int|
                0 <= i < self.pairs_seq().len() ==> #[trigger] self@.contains_key(
                    self.pairs_seq()[i].0@,
                ) && self@[self.pairs_seq()[i].0@] == self.pairs_seq()[i].1@,
            forall|k: Seq<char>|
                self@.contains_key(k) ==> exists|i: int|
                    0 <= i < self.pairs_seq().len() && #[trigger] self.pairs_seq()[i].0@ == k,
    {
        assert forall|i: int| 0 <= i < self.pairs_seq().len() implies #[trigger] self@.contains_key(
            self.pairs_seq()[i].0@,
        ) && self@[self.pairs_seq()[i].0@] == self.pairs_seq()[i].1@ by {
            lemma_env_map_of_at(self.pairs@, i);
        }
        assert forall|k: Seq<char>| self@.contains_key(k) implies exists|i: int|
            0 <= i < self.pairs_seq().len() && #[trigger] self.pairs_seq()[i].0@ == k by {
            lemma_env_map_of_contains(self.pairs@, k);
            let i = choose|i: int| 0 <= i < self.pairs@.len() && self.pairs@[i].0@ == k;
            assert(0 <= i < self.pairs_seq().len() && self.pairs_seq()[i].0@ == k);
        }
    }

    /// An empty environment.
    pub fn new() -> (r: EnvMap)
        ensures
            r@ == Map::<Seq<char>, Seq<char>>::empty(),
            r.wf(),
            r.pairs_seq().len() == 0,
    {
        EnvMap { pairs: Vec::new() }
    }

    fn index_of_key(&self, k: &String) -> (r: Option<usize>)
        ensures
            match r {
                Some(i) => i < self.pairs_seq().len() && self.pairs_seq()[i as int].0@ == k@,
                None => forall|i: int|
                    0 <= i < self.pairs_seq().len() ==> self.pairs_seq()[i].0@ != k@,
            },
    {
        let n = self.pairs.len();
        let mut i: usize = 0;
        while i < n
            invariant
                0 <= i <= n,
                n == self.pairs_seq().len(),
                forall|j: int| 0 <= j < i ==> self.pairs_seq()[j].0@ != k@,
            decreases n - i,
        {
            if self.pairs[i].0 == *k {
                return Some(i);
            }
            i = i + 1;
        }
        None
    }

    /// Whether `k` is bound.
    pub fn contains_key(&self, k: &String) -> (r: bool)
        requires
            self.wf(),
        ensures
            r == self@.contains_key(k@),
    {
        proof {
            lemma_env_map_of_contains(self.pairs@, k@);
        }
        self.index_of_key(k).is_some()
    }

    /// The value bound to `k`, if any.
    pub fn get(&self, k: &String) -> (r: Option<&String>)
        requires
            self.wf(),
        ensures
            match r {
                Some(v) => self@.contains_key(k@) && self@[k@] == v@,
                None => !self@.contains_key(k@),
            },
    {
        proof {
            lemma_env_map_of_contains(self.pairs@, k@);
        }
        match self.index_of_key(k) {
            Some(i) => {
                proof {
                    lemma_env_map_of_at(self.pairs@, i as int);
                }
                Some(&self.pairs[i].1)
            },
            None => None,
        }
    }

    /// Binds `k` to `v`, replacing any earlier binding.
    pub fn insert(&mut self, k: String, v: String)
        requires
            old(self).wf(),
        ensures
            final(self).wf(),
            final(self)@ == old(self)@.insert(k@, v@),
            final(self).pairs_seq().len() <= old(self).pairs_seq().len() + 1,
    {
        match self.index_of_key(&k) {
            Some(i) => {
                proof {
                    lemma_update_key(self.pairs@, i as int, k, v);
                }
                let _ = self.pairs.remove(i);
                self.pairs.insert(i, (k, v));
                proof {
                    assert(self.pairs@ =~= old(self).pairs@.update(i as int, self.pairs@[i as int]));
                    assert forall|j: int| 0 <= j < self.pairs@.len() implies self.pairs@[j].0@
                        == old(self).pairs@[j].0@ by {}
                }
            },
            None => {
                self.pairs.push((k, v));
                proof {
                    assert(self.pairs@.drop_last() =~= old(self).pairs@);
                    assert forall|p: int, q: int|
                        0 <= p < q < self.pairs@.len() implies self.pairs@[p].0@
                        != self.pairs@[q].0@ by {
                        assert(self.pairs@[p] == old(self).pairs@[p]);
                        assert(old(self).pairs_seq()[p].0@ != k@);
                        if q < self.pairs@.len() - 1 {
                            assert(self.pairs@[q] == old(self).pairs@[q]);
                        } else {
                            assert(self.pairs@[q].0@ == k@);
                        }
                    }
                }
            },
        }
    }

    /// Adds every binding of `other`, overriding per key.
    pub fn extend(&mut self, other: &EnvMap)
        requires
            old(self).wf(),
            other.wf(),
        ensures
            final(self).wf(),
            final(self)@ == old(self)@.union_prefer_right(other@),
    {
        let n = other.pairs.len();
        let mut i: usize = 0;
        while i < n
            invariant
                0 <= i <= n,
                n == other.pairs_seq().len(),
                self.wf(),
                other.wf(),
                self@ == old(self)@.union_prefer_right(env_map_of(other.pairs_seq().take(i as int))),
            decreases n - i,
        {
            let k = clone_string(&other.pairs[i].0);
            let v = clone_string(&other.pairs[i].1);
            self.insert(k, v);
            proof {
                let prev = other.pairs_seq().take(i as int);
                let next = other.pairs_seq().take(i + 1 as int);
                assert(next.drop_last() =~= prev);
                assert(env_map_of(next) == env_map_of(prev).insert(
                    other.pairs_seq()[i as int].0@,
                    other.pairs_seq()[i as int].1@,
                ));
                assert(self@ =~= old(self)@.union_prefer_right(env_map_of(next)));
            }
            i = i + 1;
        }
        proof {
            assert(other.pairs_seq().take(n as int) =~= other.pairs_seq());
        }
    }

    /// A copy with the same bindings.
    pub fn duplicate(&self) -> (r: EnvMap)
        requires
            self.wf(),
        ensures
            r.wf(),
            r@ == self@,
            r.pairs_seq().len() == self.pairs_seq().len(),
    {
        let n = self.pairs.len();
        let mut pairs: Vec<(String, String)> = Vec::new();
        let mut i: usize = 0;
        while i < n
            invariant
                0 <= i <= n,
                n == self.pairs_seq().len(),
                pairs@.len() == i,
                forall|j: int|
                    0 <= j < i ==> pairs@[j].0@ == self.pairs_seq()[j].0@ && pairs@[j].1@
                        == self.pairs_seq()[j].1@,
            decreases n - i,
        {
            let k = clone_string(&self.pairs[i].0);
            let v = clone_string(&self.pairs[i].1);
            pairs.push((k, v));
            i = i + 1;
        }
        let r = EnvMap { pairs };
        proof {
            lemma_env_map_of_congruent(r.pairs@, self.pairs@);
        }
        r
    }

    /// How many variables are bound.
    pub fn len(&self) -> (r: usize)
        ensures
            r == self.pairs_seq().len(),
    {
        self.pairs.len()
    }

    /// The variable name at position `i`, for walking the environment.
    pub fn key_at(&self, i: usize) -> (r: &String)
        requires
            i < self.pairs_seq().len(),
        ensures
            r@ == self.pairs_seq()[i as int].0@,
    {
        &self.pairs[i].0
    }

    /// The value at position `i`, for walking the environment.
    pub fn value_at(&self, i: usize) -> (r: &String)
        requires
            i < self.pairs_seq().len(),
        ensures
            r@ == self.pairs_seq()[i as int].1@,
    {
        &self.pairs[i].1
    }
}

/// Clones a string; the copy has the same characters.
pub fn clone_string(s: &String) -> (r: String)
    ensures
        r@ == s@,
{
    s.clone()
}

proof fn lemma_update_key(s: Seq<(String, String)>, i: int, k: String, v: String)
    requires
        0 <= i < s.len(),
        s[i].0@ == k@,
        forall|p: int, q: int| 0 <= p < q < s.len() ==> s[p].0@ != s[q].0@,
    ensures
        env_map_of(s.update(i, (k, v))) == env_map_of(s).insert(k@, v@),
    decreases s.len(),
{
    let su = s.update(i, (k, v));
    if i == s.len() - 1 {
        assert(su.drop_last() =~= s.drop_last());
        assert(env_map_of(su) =~= env_map_of(s).insert(k@, v@));
    } else {
        assert(su.drop_last() =~= s.drop_last().update(i, (k, v)));
        lemma_update_key(s.drop_last(), i, k, v);
        assert(s.last().0@ != k@);
        assert(env_map_of(su) == env_map_of(s.drop_last()).insert(k@, v@).insert(
            s.last().0@,
            s.last().1@,
        ));
        assert(env_map_of(su) =~= env_map_of(s).insert(k@, v@));
    }
}

proof fn lemma_env_map_of_congruent(a: Seq<(String, String)>, b: Seq<(String, String)>)
    requires
        a.len() == b.len(),
        forall|j: int| 0 <= j < a.len() ==> a[j].0@ == b[j].0@ && a[j].1@ == b[j].1@,
    ensures
        env_map_of(a) == env_map_of(b),
    decreases a.len(),
{
    if a.len() > 0 {
        lemma_env_map_of_congruent(a.drop_last(), b.drop_last());
        assert(env_map_of(a) =~= env_map_of(b));
    }
}

} // verus!
