//! String-keyed containers the engine runs on: an association map whose view
//! is a `Map` from character sequences to the values' deep views, and a set
//! of canonical paths.

use vstd::prelude::*;

verus! {

/// The map modelled by parallel key and value rows, later entries shadowing
/// earlier ones (the containers below never keep two entries for one key).
pub open spec fn assoc_map<T>(keys: Seq<Seq<char>>, vals: Seq<T>) -> Map<Seq<char>, T>
    decreases keys.len(),
{
    if keys.len() == 0 || vals.len() == 0 {
        Map::empty()
    } else {
        assoc_map(keys.drop_last(), vals.drop_last()).insert(keys.last(), vals.last())
    }
}

/// Pairwise-distinct keys.
pub open spec fn distinct_keys(keys: Seq<Seq<char>>) -> bool {
    forall|i: int, j: int| 0 <= i < j < keys.len() ==> keys[i] != keys[j]
}

pub proof fn lemma_assoc_map_dom<T>(keys: Seq<Seq<char>>, vals: Seq<T>)
    requires
        keys.len() == vals.len(),
    ensures
        forall|k: Seq<char>| #[trigger]
            assoc_map(keys, vals).contains_key(k) <==> keys.contains(k),
        assoc_map(keys, vals).dom().finite(),
    decreases keys.len(),
{
    if keys.len() == 0 {
        assert(forall|k: Seq<char>| !keys.contains(k));
    } else {
        lemma_assoc_map_dom(keys.drop_last(), vals.drop_last());
        assert forall|k: Seq<char>| #[trigger]
            assoc_map(keys, vals).contains_key(k) implies keys.contains(k) by {
            if k == keys.last() {
                assert(keys[keys.len() - 1] == k);
            } else {
                let i = choose|i: int|
                    0 <= i < keys.drop_last().len() && keys.drop_last()[i] == k;
                assert(keys[i] == k);
            }
        }
        assert forall|k: Seq<char>| keys.contains(k) implies #[trigger]
            assoc_map(keys, vals).contains_key(k) by {
            if k != keys.last() {
                let i = choose|i: int| 0 <= i < keys.len() && keys[i] == k;
                assert(keys.drop_last()[i] == k);
            }
        }
    }
}

pub proof fn lemma_assoc_map_at<T>(keys: Seq<Seq<char>>, vals: Seq<T>, i: int)
    requires
        keys.len() == vals.len(),
        distinct_keys(keys),
        0 <= i < keys.len(),
    ensures
        assoc_map(keys, vals).contains_key(keys[i]),
        assoc_map(keys, vals)[keys[i]] == vals[i],
    decreases keys.len(),
{
    if i == keys.len() - 1 {
    } else {
        lemma_assoc_map_at(keys.drop_last(), vals.drop_last(), i);
        assert(keys.drop_last()[i] == keys[i]);
        assert(keys[i] != keys.last());
    }
}

pub proof fn lemma_assoc_map_update<T>(keys: Seq<Seq<char>>, vals: Seq<T>, i: int, v: T)
    requires
        keys.len() == vals.len(),
        distinct_keys(keys),
        0 <= i < keys.len(),
    ensures
        assoc_map(keys, vals.update(i, v)) == assoc_map(keys, vals).insert(keys[i], v),
    decreases keys.len(),
{
    if i == keys.len() - 1 {
        assert(vals.update(i, v).drop_last() =~= vals.drop_last());
        assert(vals.update(i, v).last() == v);
        assert(assoc_map(keys, vals.update(i, v)) =~= assoc_map(keys, vals).insert(keys[i], v));
    } else {
        lemma_assoc_map_update(keys.drop_last(), vals.drop_last(), i, v);
        assert(vals.update(i, v).drop_last() =~= vals.drop_last().update(i, v));
        assert(vals.update(i, v).last() == vals.last());
        assert(keys.drop_last()[i] == keys[i]);
        assert(keys[i] != keys.last());
        assert(assoc_map(keys, vals.update(i, v)) =~= assoc_map(keys, vals).insert(keys[i], v));
    }
}

/// An association map from strings to values, keyed by the string's
/// character sequence. Replaces a hash map so that the catalog, the
/// resolved-directive index and the file store have exact `Map` views.
pub struct StrMap<V> {
    pub keys: Vec<String>,
    pub vals: Vec<V>,
}

impl<V: DeepView> StrMap<V> {
    /// One row per key, no key twice.
    pub open spec fn wf(&self) -> bool {
        &&& self.keys@.len() == self.vals@.len()
        &&& distinct_keys(self.keys.deep_view())
    }

    pub open spec fn view(&self) -> Map<Seq<char>, <V as DeepView>::V> {
        assoc_map(self.keys.deep_view(), self.vals.deep_view())
    }

    pub fn new() -> (m: Self)
        ensures
            m.wf(),
            m@ == Map::<Seq<char>, <V as DeepView>::V>::empty(),
    {
        StrMap { keys: Vec::new(), vals: Vec::new() }
    }

    /// Index of the row holding `k`, if any.
    fn find(&self, k: &String) -> (r: Option<usize>)
        requires
            self.wf(),
        ensures
            match r {
                Some(i) => i < self.keys@.len() && self.keys@[i as int]@ == k@,
                None => !self@.contains_key(k@),
            },
    {
        let n = self.keys.len();
        let mut i: usize = 0;
        while i < n
            invariant
                self.wf(),
                i <= n,
                n == self.keys@.len(),
                forall|j: int| 0 <= j < i ==> self.keys.deep_view()[j] != k@,
            decreases n - i,
        {
            if self.keys[i] == *k {
                return Some(i);
            }
            i += 1;
        }
        proof {
            lemma_assoc_map_dom(self.keys.deep_view(), self.vals.deep_view());
            if self@.contains_key(k@) {
                let j = choose|j: int|
                    0 <= j < self.keys.deep_view().len() && self.keys.deep_view()[j] == k@;
                assert(self.keys.deep_view()[j] != k@);
            }
        }
        None
    }

    pub fn contains_key(&self, k: &String) -> (r: bool)
        requires
            self.wf(),
        ensures
            r == self@.contains_key(k@),
    {
        match self.find(k) {
            Some(i) => {
                proof {
                    lemma_assoc_map_at(self.keys.deep_view(), self.vals.deep_view(), i as int);
                }
                true
            },
            None => false,
        }
    }

    pub fn get<'a>(&'a self, k: &String) -> (r: Option<&'a V>)
        requires
            self.wf(),
        ensures
            match r {
                Some(v) => self@.contains_key(k@) && v.deep_view() == self@[k@],
                None => !self@.contains_key(k@),
            },
    {
        match self.find(k) {
            Some(i) => {
                proof {
                    lemma_assoc_map_at(self.keys.deep_view(), self.vals.deep_view(), i as int);
                }
                Some(&self.vals[i])
            },
            None => None,
        }
    }

    /// Binds `k` to `v`, shadowing an earlier binding if one is there.
    pub fn insert(&mut self, k: String, v: V)
        requires
            old(self).wf(),
        ensures
            final(self).wf(),
            final(self)@ == old(self)@.insert(k@, v.deep_view()),
    {
        match self.find(&k) {
            Some(i) => {
                proof {
                    lemma_assoc_map_update(
                        self.keys.deep_view(),
                        self.vals.deep_view(),
                        i as int,
                        v.deep_view(),
                    );
                }
                self.vals.set(i, v);
                proof {
                    assert(self.vals.deep_view() =~= old(self).vals.deep_view().update(
                        i as int,
                        v.deep_view(),
                    ));
                }
            },
            None => {
                proof {
                    lemma_assoc_map_dom(self.keys.deep_view(), self.vals.deep_view());
                }
                self.keys.push(k);
                self.vals.push(v);
                proof {
                    let ks = old(self).keys.deep_view();
                    let vs = old(self).vals.deep_view();
                    assert(self.keys.deep_view() =~= ks.push(k@));
                    assert(self.vals.deep_view() =~= vs.push(v.deep_view()));
                    assert(ks.push(k@).drop_last() =~= ks);
                    assert(vs.push(v.deep_view()).drop_last() =~= vs);
                    assert forall|i: int, j: int|
                        0 <= i < j < self.keys.deep_view().len() implies self.keys.deep_view()[i]
                        != self.keys.deep_view()[j] by {
                        if j == ks.len() {
                            assert(ks.contains(ks[i]));
                        }
                    }
                }
            },
        }
    }

    /// Binds `k` to `v` only if `k` is not yet bound: the first binding wins.
    pub fn insert_if_absent(&mut self, k: String, v: V)
        requires
            old(self).wf(),
        ensures
            final(self).wf(),
            final(self)@ == if old(self)@.contains_key(k@) {
                old(self)@
            } else {
                old(self)@.insert(k@, v.deep_view())
            },
    {
        if !self.contains_key(&k) {
            self.insert(k, v);
        }
    }

    /// The view's domain is finite; every key of the view sits in a row.
    pub proof fn lemma_view_shape(&self)
        requires
            self.wf(),
        ensures
            self@.dom().finite(),
            forall|k: Seq<char>| #[trigger]
                self@.contains_key(k) ==> exists|i: int|
                    0 <= i < self.keys@.len() && self.keys.deep_view()[i] == k,
            forall|i: int|
                0 <= i < self.keys@.len() ==> self@.contains_key(
                    #[trigger] self.keys.deep_view()[i],
                ) && self@[self.keys.deep_view()[i]] == self.vals.deep_view()[i],
    {
        lemma_assoc_map_dom(self.keys.deep_view(), self.vals.deep_view());
        assert forall|i: int| 0 <= i < self.keys@.len() implies self@.contains_key(
            #[trigger] self.keys.deep_view()[i],
        ) && self@[self.keys.deep_view()[i]] == self.vals.deep_view()[i] by {
            lemma_assoc_map_at(self.keys.deep_view(), self.vals.deep_view(), i);
        }
    }
}

/// The set of canonical paths already expanded in the current run.
pub struct PathSet {
    pub items: Vec<String>,
}

/// The set modelled by the item row.
pub open spec fn key_set(items: Seq<Seq<char>>) -> Set<Seq<char>>
    decreases items.len(),
{
    if items.len() == 0 {
        Set::empty()
    } else {
        key_set(items.drop_last()).insert(items.last())
    }
}

pub proof fn lemma_key_set(items: Seq<Seq<char>>)
    ensures
        key_set(items).finite(),
        forall|k: Seq<char>| #[trigger] key_set(items).contains(k) <==> items.contains(k),
    decreases items.len(),
{
    if items.len() == 0 {
        assert(forall|k: Seq<char>| !items.contains(k));
    } else {
        lemma_key_set(items.drop_last());
        assert forall|k: Seq<char>| #[trigger]
            key_set(items).contains(k) implies items.contains(k) by {
            if k == items.last() {
                assert(items[items.len() - 1] == k);
            } else {
                let i = choose|i: int|
                    0 <= i < items.drop_last().len() && items.drop_last()[i] == k;
                assert(items[i] == k);
            }
        }
        assert forall|k: Seq<char>| items.contains(k) implies #[trigger]
            key_set(items).contains(k) by {
            if k != items.last() {
                let i = choose|i: int| 0 <= i < items.len() && items[i] == k;
                assert(items.drop_last()[i] == k);
            }
        }
    }
}

impl PathSet {
    pub open spec fn wf(&self) -> bool {
        distinct_keys(self.items.deep_view())
    }

    pub open spec fn view(&self) -> Set<Seq<char>> {
        key_set(self.items.deep_view())
    }

    pub fn new() -> (s: Self)
        ensures
            s.wf(),
            s@ == Set::<Seq<char>>::empty(),
    {
        PathSet { items: Vec::new() }
    }

    pub fn contains(&self, k: &String) -> (r: bool)
        requires
            self.wf(),
        ensures
            r == self@.contains(k@),
    {
        proof {
            lemma_key_set(self.items.deep_view());
        }
        let n = self.items.len();
        let mut i: usize = 0;
        while i < n
            invariant
                self.wf(),
                i <= n,
                n == self.items@.len(),
                forall|j: int| 0 <= j < i ==> self.items.deep_view()[j] != k@,
            decreases n - i,
        {
            if self.items[i] == *k {
                proof {
                    lemma_key_set(self.items.deep_view());
                    assert(self.items.deep_view()[i as int] == k@);
                }
                return true;
            }
            i += 1;
        }
        proof {
            if self@.contains(k@) {
                let j = choose|j: int|
                    0 <= j < self.items.deep_view().len() && self.items.deep_view()[j] == k@;
                assert(self.items.deep_view()[j] != k@);
            }
        }
        false
    }

    /// Records `k` as expanded. The engine asks before it inserts, so a
    /// member is never inserted twice.
    pub fn insert(&mut self, k: String)
        requires
            old(self).wf(),
            !old(self)@.contains(k@),
        ensures
            final(self).wf(),
            final(self)@ == old(self)@.insert(k@),
            final(self)@.finite() && old(self)@.finite(),
            final(self)@.len() == old(self)@.len() + 1,
    {
        proof {
            lemma_key_set(self.items.deep_view());
        }
        self.items.push(k);
        proof {
            let is = old(self).items.deep_view();
            assert(self.items.deep_view() =~= is.push(k@));
            assert(is.push(k@).drop_last() =~= is);
            assert forall|i: int, j: int|
                0 <= i < j < self.items.deep_view().len() implies self.items.deep_view()[i]
                != self.items.deep_view()[j] by {
                if j == is.len() {
                    lemma_key_set(is);
                    assert(is.contains(is[i]));
                }
            }
            lemma_key_set(is);
        }
    }
}

} // verus!
