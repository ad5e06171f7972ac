//! A map from file names to values, in the order the names were first
//! inserted. A later insert under a name replaces the earlier value.
use vstd::prelude::*;

verus! {

/// The map that inserting the given pairs one after another builds.
pub open spec fn map_of<V>(pairs: Seq<(Seq<char>, V)>) -> Map<Seq<char>, V>
    decreases pairs.len(),
{
    if pairs.len() == 0 {
        Map::empty()
    } else {
        map_of(pairs.drop_last()).insert(pairs.last().0, pairs.last().1)
    }
}

/// No name occurs twice.
pub open spec fn distinct_names<V>(pairs: Seq<(Seq<char>, V)>) -> bool {
    forall|i: int, j: int| 0 <= i < j < pairs.len() ==> #[trigger] pairs[i].0 != #[trigger] pairs[j].0
}

/// With distinct names, a name is in the map exactly when some pair has it,
/// and its value is that pair's.
pub proof fn lemma_map_of_distinct<V>(pairs: Seq<(Seq<char>, V)>)
    requires
        distinct_names(pairs),
    ensures
        forall|i: int| 0 <= i < pairs.len() ==> #[trigger] map_of(pairs).contains_key(pairs[i].0)
            && map_of(pairs)[pairs[i].0] == pairs[i].1,
        forall|k: Seq<char>| #[trigger] map_of(pairs).contains_key(k) ==> exists|i: int|
            0 <= i < pairs.len() && pairs[i].0 == k,
    decreases pairs.len(),
{
    if pairs.len() > 0 {
        let init = pairs.drop_last();
        assert(distinct_names(init)) by {
            assert forall|i: int, j: int| 0 <= i < j < init.len() implies #[trigger] init[i].0
                != #[trigger] init[j].0 by {
                assert(init[i] == pairs[i] && init[j] == pairs[j]);
            }
        }
        lemma_map_of_distinct(init);
        let last = pairs[pairs.len() - 1];
        assert(map_of(pairs) == map_of(init).insert(last.0, last.1));
        assert forall|i: int| 0 <= i < pairs.len() implies #[trigger] map_of(
            pairs,
        ).contains_key(pairs[i].0) && map_of(pairs)[pairs[i].0] == pairs[i].1 by {
            if i < pairs.len() - 1 {
                assert(init[i] == pairs[i]);
                assert(map_of(init).contains_key(init[i].0));
                assert(pairs[i].0 != last.0);
            }
        }
        assert forall|k: Seq<char>| #[trigger] map_of(pairs).contains_key(k) implies exists|i: int|
            0 <= i < pairs.len() && pairs[i].0 == k by {
            if k != last.0 {
                assert(map_of(init).contains_key(k));
                let i = choose|i: int| 0 <= i < init.len() && init[i].0 == k;
                assert(pairs[i] == init[i]);
            } else {
                assert(pairs[pairs.len() - 1].0 == k);
            }
        }
    }
}

/// A name is in the map exactly when some pair has it.
pub proof fn lemma_map_of_keys<V>(pairs: Seq<(Seq<char>, V)>)
    ensures
        forall|k: Seq<char>| #[trigger] map_of(pairs).contains_key(k) <==> exists|i: int|
            0 <= i < pairs.len() && pairs[i].0 == k,
    decreases pairs.len(),
{
    if pairs.len() > 0 {
        let init = pairs.drop_last();
        lemma_map_of_keys(init);
        assert(map_of(pairs) == map_of(init).insert(pairs.last().0, pairs.last().1));
        assert forall|k: Seq<char>| #[trigger] map_of(pairs).contains_key(k) <==> exists|i: int|
            0 <= i < pairs.len() && pairs[i].0 == k by {
            if map_of(pairs).contains_key(k) {
                if k == pairs.last().0 {
                    assert(pairs[pairs.len() - 1].0 == k);
                } else {
                    assert(map_of(init).contains_key(k));
                    let i = choose|i: int| 0 <= i < init.len() && init[i].0 == k;
                    assert(pairs[i] == init[i]);
                }
            }
            if exists|i: int| 0 <= i < pairs.len() && pairs[i].0 == k {
                let i = choose|i: int| 0 <= i < pairs.len() && pairs[i].0 == k;
                if i < pairs.len() - 1 {
                    assert(init[i] == pairs[i]);
                    assert(map_of(init).contains_key(k));
                }
            }
        }
    }
}

/// When every pair with name `k` has the value `v`, and some pair has it,
/// the map gives `v` for `k`.
pub proof fn lemma_map_of_value<V>(pairs: Seq<(Seq<char>, V)>, k: Seq<char>, v: V)
    requires
        exists|i: int| 0 <= i < pairs.len() && pairs[i].0 == k,
        forall|i: int| 0 <= i < pairs.len() && (#[trigger] pairs[i]).0 == k ==> pairs[i].1 == v,
    ensures
        map_of(pairs).contains_key(k),
        map_of(pairs)[k] == v,
    decreases pairs.len(),
{
    lemma_map_of_keys(pairs);
    let init = pairs.drop_last();
    assert(map_of(pairs) == map_of(init).insert(pairs.last().0, pairs.last().1));
    if pairs.last().0 != k {
        let i = choose|i: int| 0 <= i < pairs.len() && pairs[i].0 == k;
        assert(init[i] == pairs[i]);
        assert forall|j: int| 0 <= j < init.len() && (#[trigger] init[j]).0 == k implies init[j].1 == v by {
            assert(init[j] == pairs[j]);
        }
        lemma_map_of_value(init, k, v);
    } else {
        assert(pairs[pairs.len() - 1].0 == k);
    }
}

/// Replacing the value of the pair at `i` replaces that name's value in the
/// map.
pub proof fn lemma_map_of_update<V>(pairs: Seq<(Seq<char>, V)>, i: int, v: V)
    requires
        distinct_names(pairs),
        0 <= i < pairs.len(),
    ensures
        map_of(pairs.update(i, (pairs[i].0, v))) == map_of(pairs).insert(pairs[i].0, v),
    decreases pairs.len(),
{
    let k = pairs[i].0;
    let upd = pairs.update(i, (k, v));
    let init = pairs.drop_last();
    if i == pairs.len() - 1 {
        assert(upd.drop_last() =~= init);
        assert(map_of(upd) =~= map_of(pairs).insert(k, v));
    } else {
        assert(distinct_names(init)) by {
            assert forall|a: int, b: int| 0 <= a < b < init.len() implies #[trigger] init[a].0
                != #[trigger] init[b].0 by {
                assert(init[a] == pairs[a] && init[b] == pairs[b]);
            }
        }
        lemma_map_of_update(init, i, v);
        assert(upd.drop_last() =~= init.update(i, (k, v)));
        assert(k != pairs.last().0);
        assert(map_of(upd) =~= map_of(pairs).insert(k, v));
    }
}

/// Values by name.
pub struct NameMap<V: View> {
    entries: Vec<(String, V)>,
}

impl<V: View> NameMap<V> {
    /// The names and values, by their views, in insertion order.
    pub closed spec fn pairs(&self) -> Seq<(Seq<char>, V::V)> {
        self.entries@.map_values(|p: (String, V)| (p.0@, p.1@))
    }

    /// The names, in the order they were first inserted.
    pub closed spec fn names(&self) -> Seq<Seq<char>> {
        self.pairs().map_values(|p: (Seq<char>, V::V)| p.0)
    }

    #[verifier::type_invariant]
    closed spec fn names_distinct(&self) -> bool {
        distinct_names(self.pairs())
    }
}

impl<V: View> View for NameMap<V> {
    type V = Map<Seq<char>, V::V>;

    closed spec fn view(&self) -> Map<Seq<char>, V::V> {
        map_of(self.pairs())
    }
}

impl<V: View> NameMap<V> {
    /// An empty map.
    pub fn new() -> (res: NameMap<V>)
        ensures
            res@ == Map::<Seq<char>, V::V>::empty(),
            res.names() == Seq::<Seq<char>>::empty(),
    {
        let res = NameMap { entries: Vec::new() };
        assert(res.pairs() =~= Seq::<(Seq<char>, V::V)>::empty());
        assert(res.names() =~= Seq::<Seq<char>>::empty());
        res
    }

    /// The number of names.
    pub fn len(&self) -> (res: usize)
        ensures
            res == self@.len(),
    {
        proof {
            use_type_invariant(self);
            self.lemma_dom();
        }
        self.entries.len()
    }

    /// The names, in the order they were first inserted, each once.
    proof fn lemma_dom(&self)
        requires
            distinct_names(self.pairs()),
        ensures
            self@.dom() =~= Set::new(|k: Seq<char>| exists|i: int| 0 <= i < self.pairs().len() && self.pairs()[i].0 == k),
            self@.dom().finite(),
            self@.len() == self.pairs().len(),
    {
        lemma_map_of_distinct(self.pairs());
        self.lemma_len(self.pairs());
    }

    proof fn lemma_len(&self, pairs: Seq<(Seq<char>, V::V)>)
        requires
            distinct_names(pairs),
        ensures
            map_of(pairs).dom().finite(),
            map_of(pairs).len() == pairs.len(),
        decreases pairs.len(),
    {
        if pairs.len() > 0 {
            let init = pairs.drop_last();
            assert(distinct_names(init)) by {
                assert forall|a: int, b: int| 0 <= a < b < init.len() implies #[trigger] init[a].0
                    != #[trigger] init[b].0 by {
                    assert(init[a] == pairs[a] && init[b] == pairs[b]);
                }
            }
            self.lemma_len(init);
            lemma_map_of_distinct(init);
            if map_of(init).contains_key(pairs.last().0) {
                let i = choose|i: int| 0 <= i < init.len() && init[i].0 == pairs.last().0;
                assert(pairs[i] == init[i]);
            }
        }
    }

    /// Position of `name` among the entries.
    fn index_of(&self, name: &String) -> (res: Option<usize>)
        ensures
            match res {
                Some(i) => i < self.pairs().len() && self.pairs()[i as int].0 == name@,
                None => forall|i: int| 0 <= i < self.pairs().len() ==> self.pairs()[i].0 != name@,
            },
    {
        let n = self.entries.len();
        let mut i: usize = 0;
        while i < n
            invariant
                n == self.entries@.len(),
                i <= n,
                forall|j: int| 0 <= j < i ==> self.pairs()[j].0 != name@,
            decreases n - i,
        {
            if self.entries[i].0 == *name {
                return Some(i);
            }
            i = i + 1;
        }
        None
    }

    /// Whether `name` has a value.
    pub fn contains_key(&self, name: &str) -> (res: bool)
        ensures
            res == self@.contains_key(name@),
    {
        proof {
            use_type_invariant(self);
            lemma_map_of_distinct(self.pairs());
        }
        let key = String::from_str(name);
        self.index_of(&key).is_some()
    }

    /// The value under `name`, if any.
    pub fn get(&self, name: &str) -> (res: Option<&V>)
        ensures
            res is Some <==> self@.contains_key(name@),
            res is Some ==> res.unwrap()@ == self@[name@],
    {
        proof {
            use_type_invariant(self);
            lemma_map_of_distinct(self.pairs());
        }
        let key = String::from_str(name);
        match self.index_of(&key) {
            Some(i) => {
                proof {
                    assert(self.pairs()[i as int] == (self.entries@[i as int].0@, self.entries@[i as int].1@));
                    assert(map_of(self.pairs()).contains_key(self.pairs()[i as int].0));
                }
                Some(&self.entries[i].1)
            },
            None => None,
        }
    }

    /// Puts `value` under `name`, replacing what was there. A new name goes
    /// last in the order of names; a name already there keeps its place.
    pub fn insert(&mut self, name: String, value: V)
        ensures
            final(self)@ == old(self)@.insert(name@, value@),
            final(self).names() == if old(self)@.contains_key(name@) {
                old(self).names()
            } else {
                old(self).names().push(name@)
            },
    {
        proof {
            use_type_invariant(&*self);
            lemma_map_of_distinct(self.pairs());
        }
        let ghost old_names = self.names();
        let ghost k = name@;
        let ghost v = value@;
        let ghost before = self.pairs();
        let found = self.index_of(&name);
        let mut entries: Vec<(String, V)> = Vec::new();
        std::mem::swap(&mut entries, &mut self.entries);
        let ghost pairs_of = |es: Seq<(String, V)>| es.map_values(|p: (String, V)| (p.0@, p.1@));
        assert(pairs_of(entries@) == before);
        match found {
            Some(i) => {
                entries.set(i, (name, value));
                proof {
                    lemma_map_of_update(before, i as int, v);
                    assert(pairs_of(entries@) =~= before.update(i as int, (k, v)));
                    assert(map_of(before).contains_key(before[i as int].0));
                    assert(pairs_of(entries@).map_values(|p: (Seq<char>, V::V)| p.0) =~= old_names);
                }
            },
            None => {
                entries.push((name, value));
                proof {
                    assert(!map_of(before).contains_key(k)) by {
                        if map_of(before).contains_key(k) {
                            let j = choose|j: int| 0 <= j < before.len() && before[j].0 == k;
                        }
                    }
                    assert(pairs_of(entries@) =~= before.push((k, v)));
                    assert(pairs_of(entries@).map_values(|p: (Seq<char>, V::V)| p.0) =~= old_names.push(k));
                    assert(pairs_of(entries@).drop_last() =~= before);
                    assert(distinct_names(pairs_of(entries@))) by {
                        let p = pairs_of(entries@);
                        assert forall|a: int, b: int| 0 <= a < b < p.len() implies #[trigger] p[a].0
                            != #[trigger] p[b].0 by {
                            if b == p.len() - 1 {
                                assert(p[a] == before[a]);
                            } else {
                                assert(p[a] == before[a] && p[b] == before[b]);
                            }
                        }
                    }
                }
            },
        }
        self.entries = entries;
    }

    /// The entries, each name once, in the order the names were first
    /// inserted.
    pub fn entries(&self) -> (res: &[(String, V)])
        ensures
            res@.len() == self@.len(),
            res@.len() == self.names().len(),
            forall|i: int| 0 <= i < res@.len() ==> #[trigger] res@[i].0@ == self.names()[i],
            forall|i: int| 0 <= i < res@.len() ==> #[trigger] self@.contains_key(res@[i].0@)
                && self@[res@[i].0@] == res@[i].1@,
            forall|i: int, j: int| 0 <= i < j < res@.len() ==> #[trigger] res@[i].0@ != #[trigger] res@[j].0@,
            forall|k: Seq<char>| #[trigger] self@.contains_key(k) ==> exists|i: int| 0 <= i < res@.len() && res@[i].0@ == k,
    {
        proof {
            use_type_invariant(self);
            lemma_map_of_distinct(self.pairs());
            self.lemma_dom();
            assert forall|i: int| 0 <= i < self.entries@.len() implies #[trigger] self.pairs()[i] == (self.entries@[i].0@, self.entries@[i].1@) by {}
            assert forall|i: int| 0 <= i < self.entries@.len() implies #[trigger] self@.contains_key(self.entries@[i].0@)
                && self@[self.entries@[i].0@] == self.entries@[i].1@ by {
                assert(self.pairs()[i] == (self.entries@[i].0@, self.entries@[i].1@));
            }
            assert forall|i: int, j: int| 0 <= i < j < self.entries@.len() implies #[trigger] self.entries@[i].0@ != #[trigger] self.entries@[j].0@ by {
                assert(self.pairs()[i] == (self.entries@[i].0@, self.entries@[i].1@));
                assert(self.pairs()[j] == (self.entries@[j].0@, self.entries@[j].1@));
                assert(self.pairs()[i].0 != self.pairs()[j].0);
            }
            assert forall|k: Seq<char>| #[trigger] self@.contains_key(k) implies exists|i: int| 0 <= i < self.entries@.len() && self.entries@[i].0@ == k by {
                let i = choose|i: int| 0 <= i < self.pairs().len() && self.pairs()[i].0 == k;
                assert(self.pairs()[i] == (self.entries@[i].0@, self.entries@[i].1@));
            }
        }
        self.entries.as_slice()
    }
}

} // verus!
